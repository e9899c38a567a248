use daz_skinning::document::{
    find_geometry, group_default, inherits_scale_default, polygons_in_range, revision_default,
    strip_selector, triangle_indices, visible_default, Array, ArrayFault, ChannelType, Contributor,
    EdgeInterpolationMode, EnumField, GeometryRecord, GeometryType, NodeType, ParseError, Polygon,
    RotationOrder,
};

#[test]
fn node_type_literals() {
    assert_eq!(NodeType::from_literal("node"), Ok(NodeType::Node));
    assert_eq!(NodeType::from_literal("bone"), Ok(NodeType::Bone));
    assert_eq!(NodeType::from_literal("figure"), Ok(NodeType::Figure));
    assert_eq!(NodeType::from_literal("camera"), Ok(NodeType::Camera));
    assert_eq!(NodeType::from_literal("light"), Ok(NodeType::Light));
}

#[test]
fn unknown_node_type_is_an_error_not_the_default() {
    assert_eq!(
        NodeType::from_literal("Bone"),
        Err(ParseError::UnknownEnumValue(EnumField::NodeType, "Bone".to_string()))
    );
    assert_eq!(
        NodeType::from_literal(""),
        Err(ParseError::UnknownEnumValue(EnumField::NodeType, String::new()))
    );
    assert_eq!(
        NodeType::from_literal("bones"),
        Err(ParseError::UnknownEnumValue(EnumField::NodeType, "bones".to_string()))
    );
    assert_eq!(NodeType::default(), NodeType::Node);
}

#[test]
fn channel_type_literals() {
    assert_eq!(ChannelType::from_literal("float"), Ok(ChannelType::Float));
    assert_eq!(ChannelType::from_literal("alias"), Ok(ChannelType::Alias));
    assert_eq!(ChannelType::from_literal("bool"), Ok(ChannelType::Bool));
    assert_eq!(ChannelType::from_literal("color"), Ok(ChannelType::Color));
    assert_eq!(ChannelType::from_literal("enum"), Ok(ChannelType::Enum));
    assert_eq!(ChannelType::from_literal("image"), Ok(ChannelType::Image));
    assert_eq!(ChannelType::from_literal("int"), Ok(ChannelType::Int));
    assert_eq!(ChannelType::from_literal("string"), Ok(ChannelType::String));
    assert_eq!(
        ChannelType::from_literal("double"),
        Err(ParseError::UnknownEnumValue(EnumField::ChannelType, "double".to_string()))
    );
    assert_eq!(ChannelType::default(), ChannelType::Float);
}

#[test]
fn rotation_order_literals() {
    assert_eq!(RotationOrder::from_literal("XYZ"), Ok(RotationOrder::XYZ));
    assert_eq!(RotationOrder::from_literal("YZX"), Ok(RotationOrder::YZX));
    assert_eq!(RotationOrder::from_literal("ZYX"), Ok(RotationOrder::ZYX));
    assert_eq!(RotationOrder::from_literal("ZXY"), Ok(RotationOrder::ZXY));
    assert_eq!(RotationOrder::from_literal("XZY"), Ok(RotationOrder::XZY));
    assert_eq!(RotationOrder::from_literal("YXZ"), Ok(RotationOrder::YXZ));
    assert_eq!(
        RotationOrder::from_literal("xyz"),
        Err(ParseError::UnknownEnumValue(EnumField::RotationOrder, "xyz".to_string()))
    );
    assert_eq!(RotationOrder::default(), RotationOrder::XYZ);
}

#[test]
fn geometry_type_literals() {
    assert_eq!(GeometryType::from_literal("polygon_mesh"), Ok(GeometryType::PolygonMesh));
    assert_eq!(
        GeometryType::from_literal("subdivision_surface"),
        Ok(GeometryType::SubdivisionSurface)
    );
    assert_eq!(
        GeometryType::from_literal("nurbs"),
        Err(ParseError::UnknownEnumValue(EnumField::GeometryType, "nurbs".to_string()))
    );
    assert_eq!(GeometryType::default(), GeometryType::PolygonMesh);
}

#[test]
fn edge_interpolation_mode_literals() {
    assert_eq!(
        EdgeInterpolationMode::from_literal("no_interpolation"),
        Ok(EdgeInterpolationMode::NoInterpolation)
    );
    assert_eq!(
        EdgeInterpolationMode::from_literal("edges_and_corners"),
        Ok(EdgeInterpolationMode::EdgesAndCorners)
    );
    assert_eq!(
        EdgeInterpolationMode::from_literal("edges_only"),
        Ok(EdgeInterpolationMode::EdgesOnly)
    );
    assert_eq!(
        EdgeInterpolationMode::from_literal("edges"),
        Err(ParseError::UnknownEnumValue(EnumField::EdgeInterpolationMode, "edges".to_string()))
    );
    assert_eq!(EdgeInterpolationMode::default(), EdgeInterpolationMode::NoInterpolation);
}

#[test]
fn defaults_of_absent_fields() {
    assert_eq!(revision_default(), "1.0");
    assert_eq!(group_default(), "/");
    assert!(visible_default());
    assert!(inherits_scale_default());
    let a: Array<u32> = Array::default();
    assert_eq!(a.count, 0);
    assert!(a.values.is_empty());
    let p = Polygon::default();
    assert_eq!(p.groups_index, 0);
    assert_eq!(p.vertex_indices, (0, 0, 0, None));
}

#[test]
fn contributor_holds_its_fields() {
    let c = Contributor { author: "someone".to_string(), email: None, website: None };
    let d = c.clone();
    assert_eq!(d.author, "someone");
    assert!(d.email.is_none() && d.website.is_none());
}

#[test]
fn triangle_from_five_entries() {
    let p = Polygon::from_sequence(&vec![3, 1, 10, 11, 12]).unwrap();
    assert_eq!(p.groups_index, 3);
    assert_eq!(p.material_groups_index, 1);
    assert_eq!(p.vertex_indices, (10, 11, 12, None));
    assert_eq!(p.vertex_count(), 3);
}

#[test]
fn quad_from_six_entries() {
    let p = Polygon::from_sequence(&vec![0, 2, 7, 8, 9, 4_294_967_295]).unwrap();
    assert_eq!(p.groups_index, 0);
    assert_eq!(p.material_groups_index, 2);
    assert_eq!(p.vertex_indices, (7, 8, 9, Some(u32::MAX)));
    assert_eq!(p.vertex_count(), 4);
}

#[test]
fn polygon_of_wrong_arity_is_malformed() {
    for n in 0..5usize {
        let values: Vec<u64> = (0..n as u64).collect();
        assert_eq!(
            Polygon::from_sequence(&values).unwrap_err(),
            ParseError::Malformed(ArrayFault::TooShort)
        );
    }
    assert_eq!(
        Polygon::from_sequence(&vec![0, 0, 1, 2, 3, 4, 5]).unwrap_err(),
        ParseError::Malformed(ArrayFault::TooLong)
    );
}

#[test]
fn polygon_entry_out_of_range_is_malformed() {
    let too_big = u32::MAX as u64 + 1;
    assert_eq!(
        Polygon::from_sequence(&vec![0, 0, too_big, 2, 3]).unwrap_err(),
        ParseError::Malformed(ArrayFault::OutOfRange)
    );
    assert_eq!(
        Polygon::from_sequence(&vec![0, 0, 1, 2, 3, too_big]).unwrap_err(),
        ParseError::Malformed(ArrayFault::OutOfRange)
    );
    assert_eq!(
        Polygon::from_sequence(&vec![0, 0, 1, 2, too_big]).unwrap_err(),
        ParseError::Malformed(ArrayFault::OutOfRange)
    );
    // the group indices are wider than the vertex indices
    let p = Polygon::from_sequence(&vec![too_big, too_big + 1, 1, 2, 3]).unwrap();
    assert_eq!(p.groups_index as u64, too_big);
    assert_eq!(p.material_groups_index as u64, too_big + 1);
}

#[test]
fn triangles_of_faces() {
    let faces = vec![
        Polygon { groups_index: 0, material_groups_index: 0, vertex_indices: (0, 1, 2, None) },
        Polygon { groups_index: 0, material_groups_index: 0, vertex_indices: (2, 3, 4, Some(5)) },
    ];
    assert_eq!(triangle_indices(&faces), vec![0, 1, 2, 2, 3, 4, 2, 4, 5]);
    assert_eq!(triangle_indices(&Vec::new()), Vec::<u32>::new());
    assert!(polygons_in_range(&faces, 6));
    assert!(!polygons_in_range(&faces, 5));
    assert!(!polygons_in_range(&faces[..1].to_vec(), 2));
    assert!(polygons_in_range(&Vec::new(), 0));
}

#[test]
fn selector_is_taken_off_a_reference() {
    assert_eq!(strip_selector("#hip"), Some("hip".to_string()));
    assert_eq!(strip_selector("#"), Some(String::new()));
    assert_eq!(strip_selector(""), None);
    assert_eq!(strip_selector("\u{e9}paule"), Some("paule".to_string()));
}

#[test]
fn last_geometry_with_an_identifier_counts() {
    let g = |id: &str, n: usize| GeometryRecord {
        id: id.to_string(),
        name: None,
        vertex_count: n,
        polygons: Vec::new(),
        default_uv_set: None,
    };
    let geometries = vec![g("body", 10), g("eyes", 4), g("body", 12)];
    assert_eq!(find_geometry(&geometries, "body"), Some(2));
    assert_eq!(find_geometry(&geometries, "eyes"), Some(1));
    assert_eq!(find_geometry(&geometries, "mouth"), None);
    assert_eq!(find_geometry(&Vec::new(), "body"), None);
}
