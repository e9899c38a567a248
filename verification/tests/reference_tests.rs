use daz_skinning::reference::{
    decode_code, directory_verdict, hex_value, percent_decode, uv_set_reference,
    UvSetReference,
};

#[test]
fn hexadecimal_digits() {
    assert_eq!(hex_value('0'), Some(0));
    assert_eq!(hex_value('9'), Some(9));
    assert_eq!(hex_value('a'), Some(10));
    assert_eq!(hex_value('f'), Some(15));
    assert_eq!(hex_value('A'), Some(10));
    assert_eq!(hex_value('F'), Some(15));
    assert_eq!(hex_value('g'), None);
    assert_eq!(hex_value('G'), None);
    assert_eq!(hex_value('/'), None);
    assert_eq!(hex_value(':'), None);
    assert_eq!(hex_value('@'), None);
    assert_eq!(hex_value('`'), None);
    assert_eq!(hex_value('\u{663}'), None);
}

#[test]
fn two_digits_give_a_character() {
    assert_eq!(decode_code("20"), Some(' '));
    assert_eq!(decode_code("41"), Some('A'));
    assert_eq!(decode_code("00"), Some('\0'));
    assert_eq!(decode_code("99"), Some('\u{99}'));
    assert_eq!(decode_code("7e"), Some('~'));
    assert_eq!(decode_code("FF"), Some('\u{ff}'));
    assert_eq!(decode_code("2"), None);
    assert_eq!(decode_code("200"), None);
    assert_eq!(decode_code(""), None);
    assert_eq!(decode_code("2x"), None);
    assert_eq!(decode_code("x2"), None);
}

#[test]
fn codes_are_decoded_from_left_to_right() {
    assert_eq!(percent_decode("My%20Figure"), Some("My Figure".to_string()));
    assert_eq!(percent_decode("%41%42%43"), Some("ABC".to_string()));
    assert_eq!(percent_decode("a%20b%20%20c%21"), Some("a b  c!".to_string()));
    assert_eq!(percent_decode("plain"), Some("plain".to_string()));
    assert_eq!(percent_decode(""), Some(String::new()));
    // what a code gives is not decoded again
    assert_eq!(percent_decode("%2541"), Some("%41".to_string()));
    // only two decimal digits make a code
    assert_eq!(percent_decode("%2a%zz%7"), Some("%2a%zz%7".to_string()));
    assert_eq!(percent_decode("100%"), Some("100%".to_string()));
    assert_eq!(percent_decode("\u{e9}t\u{e9}%20\u{1f600}%21"), Some("\u{e9}t\u{e9} \u{1f600}!".to_string()));
}

#[test]
fn reference_names_a_path_and_a_set() {
    assert_eq!(
        uv_set_reference("/data/My%20Figure/Base/UV%20Sets/base.dsf#default"),
        Some(UvSetReference {
            path: "data/My Figure/Base/UV Sets/base.dsf#default".to_string(),
            target: "default".to_string(),
        })
    );
    assert_eq!(
        uv_set_reference("data/uvs.dsf#Base%20UVs"),
        Some(UvSetReference {
            path: "data/uvs.dsf#Base UVs".to_string(),
            target: "Base UVs".to_string(),
        })
    );
    assert_eq!(
        uv_set_reference("#a#b"),
        Some(UvSetReference { path: "#a#b".to_string(), target: "a#b".to_string() })
    );
    assert_eq!(
        uv_set_reference("//x#y"),
        Some(UvSetReference { path: "/x#y".to_string(), target: "y".to_string() })
    );
}

#[test]
fn reference_without_a_set_names_nothing() {
    assert_eq!(uv_set_reference("/data/uvs.dsf"), None);
    assert_eq!(uv_set_reference("/data/uvs.dsf#"), None);
    assert_eq!(uv_set_reference(""), None);
    assert_eq!(uv_set_reference("/"), None);
}

#[test]
fn one_root_with_a_directory_decides() {
    assert_eq!(directory_verdict(&vec![None, Some(false), Some(true)]), Some(true));
    assert_eq!(directory_verdict(&vec![Some(true)]), Some(true));
    assert_eq!(directory_verdict(&vec![None, Some(false), None]), Some(false));
    assert_eq!(directory_verdict(&vec![None, None]), None);
    assert_eq!(directory_verdict(&Vec::new()), None);
}
