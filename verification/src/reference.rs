//! References from one document into another, and the content roots in
//! which documents are found.
//!
//! A geometry names its default set of texture coordinates by a reference
//! such as `/data/My%20Figure/uvs.dsf#default`: the path of a document, in
//! which `%` and two digits stand for the character with that hexadecimal
//! code, and behind `#` the identifier of the set. The patterns are searched
//! for by the `regex` crate.

use regex::Regex;
use vstd::prelude::*;
use vstd::string::{StrSliceExecFns, StringExecFns};

verus! {

/// The leftmost match of the regular expression `pattern` in `text`, in
/// three parts: the text before the match, the text of the pattern's first
/// group, and the text behind the match. `None` where `pattern` is no
/// regular expression, where nothing matches, and where the first group
/// takes no part in the match.
pub uninterp spec fn leftmost_match(pattern: Seq<char>, text: Seq<char>) -> Option<
    (Seq<char>, Seq<char>, Seq<char>),
>;

/// Compiles `pattern` with `Regex::new` and searches `text` with
/// `Regex::captures`; the parts are cut from `text` at the offsets that
/// `Captures::get` gives for the whole match and for the first group. The
/// contract claims no more than that the result is the one that the name
/// `leftmost_match` stands for.
#[verifier::external_body]
fn split_at_match(pattern: &str, text: &str) -> (r: Option<(String, String, String)>)
    ensures
        match leftmost_match(pattern@, text@) {
            Some((before, group, after)) => r matches Some(parts) && parts.0@ == before
                && parts.1@ == group && parts.2@ == after,
            None => r.is_none(),
        },
{
    let found = Regex::new(pattern).ok()?.captures(text)?;
    let whole = found.get(0)?;
    let group = found.get(1)?;
    Some(
        (
            text[..whole.start()].to_owned(),
            group.as_str().to_owned(),
            text[whole.end()..].to_owned(),
        ),
    )
}

/// `String::push`: the character is appended to the string.
#[verifier::external_body]
fn push_char(s: &mut String, c: char)
    ensures
        final(s)@ == old(s)@.push(c),
{
    s.push(c)
}

/// The value of a hexadecimal digit.
pub open spec fn hex_digit(c: char) -> Option<int> {
    if '0' <= c <= '9' {
        Some(c as int - '0' as int)
    } else if 'a' <= c <= 'f' {
        Some(c as int - 'a' as int + 10)
    } else if 'A' <= c <= 'F' {
        Some(c as int - 'A' as int + 10)
    } else {
        None
    }
}

/// The character whose code two hexadecimal digits give.
pub open spec fn code_char(digits: Seq<char>) -> Option<char> {
    if digits.len() == 2 {
        match (hex_digit(digits[0]), hex_digit(digits[1])) {
            (Some(high), Some(low)) => Some((16 * high + low) as char),
            _ => None,
        }
    } else {
        None
    }
}

/// The text with each code of `%` and two digits replaced by the character
/// that the digits give, from left to right; what a code is replaced by is
/// not searched again.
pub open spec fn percent_decoded(text: Seq<char>) -> Option<Seq<char>>
    decreases text.len(),
{
    match leftmost_match("%([0-9]{2})"@, text) {
        None => Some(text),
        Some((before, digits, after)) => if after.len() < text.len() {
            match (code_char(digits), percent_decoded(after)) {
                (Some(c), Some(rest)) => Some(before.push(c) + rest),
                _ => None,
            }
        } else {
            None
        },
    }
}

/// The text without the `/` that it starts with, if it starts with one.
pub open spec fn without_leading_slash(text: Seq<char>) -> Seq<char> {
    if text.len() > 0 && text[0] == '/' {
        text.subrange(1, text.len() as int)
    } else {
        text
    }
}

/// The path and the identifier that a reference names: the path is the
/// reference without its leading `/`, decoded; the identifier is what
/// stands behind the first `#` of the path that something follows.
pub open spec fn referenced(uri: Seq<char>) -> Option<(Seq<char>, Seq<char>)> {
    match percent_decoded(without_leading_slash(uri)) {
        None => None,
        Some(path) => match leftmost_match("#(.+)"@, path) {
            None => None,
            Some((_, target, _)) => Some((path, target)),
        },
    }
}

/// The value of a hexadecimal digit.
pub fn hex_value(c: char) -> (r: Option<u8>)
    ensures
        match hex_digit(c) {
            Some(v) => r == Some(v as u8) && 0 <= v < 16,
            None => r.is_none(),
        },
{
    let code: u32 = c as u32;
    if 0x30 <= code && code <= 0x39 {
        Some((code - 0x30) as u8)
    } else if 0x61 <= code && code <= 0x66 {
        Some((code - 0x61 + 10) as u8)
    } else if 0x41 <= code && code <= 0x46 {
        Some((code - 0x41 + 10) as u8)
    } else {
        None
    }
}

/// The character whose code two hexadecimal digits give; `None` for
/// anything but two such digits.
pub fn decode_code(digits: &str) -> (r: Option<char>)
    ensures
        r == code_char(digits@),
{
    if digits.unicode_len() != 2 {
        return None;
    }
    match (hex_value(digits.get_char(0)), hex_value(digits.get_char(1))) {
        (Some(high), Some(low)) => {
            let code: u8 = 16 * high + low;
            Some(code as char)
        },
        _ => None,
    }
}

/// Replaces each code of `%` and two digits by the character that the
/// digits give.
pub fn percent_decode(text: &str) -> (r: Option<String>)
    ensures
        match percent_decoded(text@) {
            Some(decoded) => r matches Some(s) && s@ == decoded,
            None => r.is_none(),
        },
{
    let mut out: String = String::new();
    let mut rest: String = text.to_owned();
    proof {
        assert(out@ + rest@ =~= text@);
    }
    loop
        invariant
            percent_decoded(text@) == match percent_decoded(rest@) {
                Some(tail) => Some(out@ + tail),
                None => None,
            },
        decreases rest@.len(),
    {
        match split_at_match("%([0-9]{2})", rest.as_str()) {
            None => {
                out.append(rest.as_str());
                return Some(out);
            },
            Some((before, digits, after)) => {
                if after.as_str().unicode_len() >= rest.as_str().unicode_len() {
                    return None;
                }
                match decode_code(digits.as_str()) {
                    None => {
                        return None;
                    },
                    Some(c) => {
                        let ghost out_before = out@;
                        out.append(before.as_str());
                        push_char(&mut out, c);
                        proof {
                            match percent_decoded(after@) {
                                Some(tail) => {
                                    assert(out@ + tail =~= out_before + (before@.push(c) + tail));
                                },
                                None => {},
                            }
                        }
                        rest = after;
                    },
                }
            },
        }
    }
}

/// What a reference to a set of texture coordinates names.
#[derive(Clone, Debug, PartialEq, Eq)]
pub struct UvSetReference {
    /// The path of the document that holds the set, with its fragment.
    pub path: String,
    /// The identifier of the set in that document.
    pub target: String,
}

/// Reads a reference to a set of texture coordinates; `None` where it
/// names no set.
pub fn uv_set_reference(uri: &str) -> (r: Option<UvSetReference>)
    ensures
        match referenced(uri@) {
            Some((path, target)) => r matches Some(found) && found.path@ == path && found.target@
                == target,
            None => r.is_none(),
        },
{
    let n: usize = uri.unicode_len();
    let relative: &str = if n > 0 && uri.get_char(0) == '/' {
        uri.substring_char(1, n)
    } else {
        uri
    };
    match percent_decode(relative) {
        None => None,
        Some(path) => match split_at_match("#(.+)", path.as_str()) {
            None => None,
            Some((_, target, _)) => Some(UvSetReference { path, target }),
        },
    }
}

/// Whether a path is a directory, from what each content root says of it:
/// `Some(true)` for a directory, `Some(false)` for something else, `None`
/// where the root could not say. One root that holds a directory decides;
/// failing that, one root that holds something else; `None` where no root
/// could say.
pub open spec fn directory_among(found: Seq<Option<bool>>) -> Option<bool> {
    if exists|k: int| 0 <= k < found.len() && found[k] == Some(true) {
        Some(true)
    } else if exists|k: int| 0 <= k < found.len() && found[k] == Some(false) {
        Some(false)
    } else {
        None
    }
}

/// Whether a path is a directory, from what each content root says of it.
pub fn directory_verdict(found: &Vec<Option<bool>>) -> (r: Option<bool>)
    ensures
        r == directory_among(found@),
{
    let mut other: bool = false;
    let mut k: usize = 0;
    while k < found.len()
        invariant
            k <= found@.len(),
            forall|x: int| 0 <= x < k ==> #[trigger] found@[x] != Some(true),
            other <==> exists|x: int| 0 <= x < k && found@[x] == Some(false),
        decreases found@.len() - k,
    {
        match found[k] {
            Some(true) => {
                return Some(true);
            },
            Some(false) => {
                other = true;
            },
            None => {},
        }
        k += 1;
    }
    if other {
        Some(false)
    } else {
        None
    }
}

} // verus!
