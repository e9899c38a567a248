//! The typed records of a character document: nodes, polygons, skin
//! bindings, and the closed sets of literals that its enumerated fields
//! accept.

use vstd::prelude::*;
use vstd::string::StrSliceExecFns;

verus! {

/// `==` of `str`: true exactly when both strings hold the same characters.
#[verifier::external_body]
pub(crate) fn same_text(a: &str, b: &str) -> (r: bool)
    ensures
        r == (a@ == b@),
{
    a == b
}

/// The enumerated fields of a document.
#[derive(Clone, Copy, Debug, PartialEq, Eq, Structural)]
pub enum EnumField {
    ChannelType,
    NodeType,
    RotationOrder,
    GeometryType,
    EdgeInterpolationMode,
}

/// Why a fixed-arity array was refused.
#[derive(Clone, Copy, Debug, PartialEq, Eq, Structural)]
pub enum ArrayFault {
    /// The array holds fewer entries than its shortest form.
    TooShort,
    /// The array holds more entries than its longest form.
    TooLong,
    /// An entry does not fit the integer type of its slot.
    OutOfRange,
}

/// Why a document was refused.
#[derive(Clone, Debug, PartialEq, Eq)]
pub enum ParseError {
    /// A fixed-arity array does not have one of its forms.
    Malformed(ArrayFault),
    /// An enumerated field holds a literal outside its closed set.
    UnknownEnumValue(EnumField, String),
}

/// The data type of a channel.
#[derive(Clone, Copy, Debug, PartialEq, Eq, Structural)]
pub enum ChannelType {
    Float,
    Alias,
    Bool,
    Color,
    Enum,
    Image,
    Int,
    String,
}

/// The base type of a node.
#[derive(Clone, Copy, Debug, PartialEq, Eq, Structural)]
pub enum NodeType {
    Node,
    Bone,
    Figure,
    Camera,
    Light,
}

/// The order in which a node's rotation channels apply.
#[derive(Clone, Copy, Debug, PartialEq, Eq, Structural)]
pub enum RotationOrder {
    XYZ,
    YZX,
    ZYX,
    ZXY,
    XZY,
    YXZ,
}

/// The kind of mesh that vertex and facet data describe.
#[derive(Clone, Copy, Debug, PartialEq, Eq, Structural)]
pub enum GeometryType {
    PolygonMesh,
    SubdivisionSurface,
}

/// The edge interpolation of a subdivision surface.
#[derive(Clone, Copy, Debug, PartialEq, Eq, Structural)]
pub enum EdgeInterpolationMode {
    NoInterpolation,
    EdgesAndCorners,
    EdgesOnly,
}

/// The channel type that a literal names, if any.
pub open spec fn channel_type_named(s: Seq<char>) -> Option<ChannelType> {
    if s == "float"@ {
        Some(ChannelType::Float)
    } else if s == "alias"@ {
        Some(ChannelType::Alias)
    } else if s == "bool"@ {
        Some(ChannelType::Bool)
    } else if s == "color"@ {
        Some(ChannelType::Color)
    } else if s == "enum"@ {
        Some(ChannelType::Enum)
    } else if s == "image"@ {
        Some(ChannelType::Image)
    } else if s == "int"@ {
        Some(ChannelType::Int)
    } else if s == "string"@ {
        Some(ChannelType::String)
    } else {
        None
    }
}

/// The node type that a literal names, if any.
pub open spec fn node_type_named(s: Seq<char>) -> Option<NodeType> {
    if s == "node"@ {
        Some(NodeType::Node)
    } else if s == "bone"@ {
        Some(NodeType::Bone)
    } else if s == "figure"@ {
        Some(NodeType::Figure)
    } else if s == "camera"@ {
        Some(NodeType::Camera)
    } else if s == "light"@ {
        Some(NodeType::Light)
    } else {
        None
    }
}

/// The rotation order that a literal names, if any.
pub open spec fn rotation_order_named(s: Seq<char>) -> Option<RotationOrder> {
    if s == "XYZ"@ {
        Some(RotationOrder::XYZ)
    } else if s == "YZX"@ {
        Some(RotationOrder::YZX)
    } else if s == "ZYX"@ {
        Some(RotationOrder::ZYX)
    } else if s == "ZXY"@ {
        Some(RotationOrder::ZXY)
    } else if s == "XZY"@ {
        Some(RotationOrder::XZY)
    } else if s == "YXZ"@ {
        Some(RotationOrder::YXZ)
    } else {
        None
    }
}

/// The geometry type that a literal names, if any.
pub open spec fn geometry_type_named(s: Seq<char>) -> Option<GeometryType> {
    if s == "polygon_mesh"@ {
        Some(GeometryType::PolygonMesh)
    } else if s == "subdivision_surface"@ {
        Some(GeometryType::SubdivisionSurface)
    } else {
        None
    }
}

/// The edge interpolation mode that a literal names, if any.
pub open spec fn edge_interpolation_mode_named(s: Seq<char>) -> Option<EdgeInterpolationMode> {
    if s == "no_interpolation"@ {
        Some(EdgeInterpolationMode::NoInterpolation)
    } else if s == "edges_and_corners"@ {
        Some(EdgeInterpolationMode::EdgesAndCorners)
    } else if s == "edges_only"@ {
        Some(EdgeInterpolationMode::EdgesOnly)
    } else {
        None
    }
}

/// What reading an enumerated field gives: the value that the literal
/// names, or the literal itself under the field's name.
pub open spec fn read_literal<T>(field: EnumField, s: Seq<char>, named: Option<T>, r: Result<
    T,
    ParseError,
>) -> bool {
    match named {
        Some(v) => r == Ok::<T, ParseError>(v),
        None => match r {
            Err(ParseError::UnknownEnumValue(f, value)) => f == field && value@ == s,
            _ => false,
        },
    }
}

impl Default for ChannelType {
    /// The value in force where the field is absent.
    fn default() -> (r: ChannelType)
        ensures
            r == ChannelType::Float,
    {
        ChannelType::Float
    }
}

impl ChannelType {
    /// Reads the field from its literal; an unrecognized literal is an
    /// error, never the default.
    pub fn from_literal(s: &str) -> (r: Result<ChannelType, ParseError>)
        ensures
            read_literal(EnumField::ChannelType, s@, channel_type_named(s@), r),
    {
        if same_text(s, "float") {
            Ok(ChannelType::Float)
        } else if same_text(s, "alias") {
            Ok(ChannelType::Alias)
        } else if same_text(s, "bool") {
            Ok(ChannelType::Bool)
        } else if same_text(s, "color") {
            Ok(ChannelType::Color)
        } else if same_text(s, "enum") {
            Ok(ChannelType::Enum)
        } else if same_text(s, "image") {
            Ok(ChannelType::Image)
        } else if same_text(s, "int") {
            Ok(ChannelType::Int)
        } else if same_text(s, "string") {
            Ok(ChannelType::String)
        } else {
            Err(ParseError::UnknownEnumValue(EnumField::ChannelType, s.to_owned()))
        }
    }
}

impl Default for NodeType {
    /// The value in force where the field is absent.
    fn default() -> (r: NodeType)
        ensures
            r == NodeType::Node,
    {
        NodeType::Node
    }
}

impl NodeType {
    /// Reads the field from its literal; an unrecognized literal is an
    /// error, never the default.
    pub fn from_literal(s: &str) -> (r: Result<NodeType, ParseError>)
        ensures
            read_literal(EnumField::NodeType, s@, node_type_named(s@), r),
    {
        if same_text(s, "node") {
            Ok(NodeType::Node)
        } else if same_text(s, "bone") {
            Ok(NodeType::Bone)
        } else if same_text(s, "figure") {
            Ok(NodeType::Figure)
        } else if same_text(s, "camera") {
            Ok(NodeType::Camera)
        } else if same_text(s, "light") {
            Ok(NodeType::Light)
        } else {
            Err(ParseError::UnknownEnumValue(EnumField::NodeType, s.to_owned()))
        }
    }
}

impl Default for RotationOrder {
    /// The value in force where the field is absent.
    fn default() -> (r: RotationOrder)
        ensures
            r == RotationOrder::XYZ,
    {
        RotationOrder::XYZ
    }
}

impl RotationOrder {
    /// Reads the field from its literal; an unrecognized literal is an
    /// error, never the default.
    pub fn from_literal(s: &str) -> (r: Result<RotationOrder, ParseError>)
        ensures
            read_literal(EnumField::RotationOrder, s@, rotation_order_named(s@), r),
    {
        if same_text(s, "XYZ") {
            Ok(RotationOrder::XYZ)
        } else if same_text(s, "YZX") {
            Ok(RotationOrder::YZX)
        } else if same_text(s, "ZYX") {
            Ok(RotationOrder::ZYX)
        } else if same_text(s, "ZXY") {
            Ok(RotationOrder::ZXY)
        } else if same_text(s, "XZY") {
            Ok(RotationOrder::XZY)
        } else if same_text(s, "YXZ") {
            Ok(RotationOrder::YXZ)
        } else {
            Err(ParseError::UnknownEnumValue(EnumField::RotationOrder, s.to_owned()))
        }
    }
}

impl Default for GeometryType {
    /// The value in force where the field is absent.
    fn default() -> (r: GeometryType)
        ensures
            r == GeometryType::PolygonMesh,
    {
        GeometryType::PolygonMesh
    }
}

impl GeometryType {
    /// Reads the field from its literal; an unrecognized literal is an
    /// error, never the default.
    pub fn from_literal(s: &str) -> (r: Result<GeometryType, ParseError>)
        ensures
            read_literal(EnumField::GeometryType, s@, geometry_type_named(s@), r),
    {
        if same_text(s, "polygon_mesh") {
            Ok(GeometryType::PolygonMesh)
        } else if same_text(s, "subdivision_surface") {
            Ok(GeometryType::SubdivisionSurface)
        } else {
            Err(ParseError::UnknownEnumValue(EnumField::GeometryType, s.to_owned()))
        }
    }
}

impl Default for EdgeInterpolationMode {
    /// The value in force where the field is absent.
    fn default() -> (r: EdgeInterpolationMode)
        ensures
            r == EdgeInterpolationMode::NoInterpolation,
    {
        EdgeInterpolationMode::NoInterpolation
    }
}

impl EdgeInterpolationMode {
    /// Reads the field from its literal; an unrecognized literal is an
    /// error, never the default.
    pub fn from_literal(s: &str) -> (r: Result<EdgeInterpolationMode, ParseError>)
        ensures
            read_literal(
                EnumField::EdgeInterpolationMode,
                s@,
                edge_interpolation_mode_named(s@),
                r,
            ),
    {
        if same_text(s, "no_interpolation") {
            Ok(EdgeInterpolationMode::NoInterpolation)
        } else if same_text(s, "edges_and_corners") {
            Ok(EdgeInterpolationMode::EdgesAndCorners)
        } else if same_text(s, "edges_only") {
            Ok(EdgeInterpolationMode::EdgesOnly)
        } else {
            Err(ParseError::UnknownEnumValue(EnumField::EdgeInterpolationMode, s.to_owned()))
        }
    }
}

/// A counted array, as documents write it: the count that the file states,
/// and the values that it holds.
#[derive(Clone, Debug, Default)]
pub struct Array<T> {
    pub count: usize,
    pub values: Vec<T>,
}

/// A person or entity that worked on an asset.
#[derive(Clone, Debug)]
pub struct Contributor {
    pub author: String,
    pub email: Option<String>,
    pub website: Option<String>,
}

/// The revision of a file that states none.
pub fn revision_default() -> (r: String)
    ensures
        r@ == "1.0"@,
{
    "1.0".to_owned()
}

/// A channel that does not say whether it is shown is shown.
pub fn visible_default() -> (r: bool)
    ensures
        r,
{
    true
}

/// The group of a modifier that states none: the root of the group path.
pub fn group_default() -> (r: String)
    ensures
        r@ == "/"@,
{
    "/".to_owned()
}

/// A node that does not say whether it inherits its parent's scale does.
pub fn inherits_scale_default() -> (r: bool)
    ensures
        r,
{
    true
}

/// An indexed face of three or four vertices.
#[derive(Clone, Copy, Debug, Default)]
pub struct Polygon {
    pub groups_index: usize,
    pub material_groups_index: usize,
    pub vertex_indices: (u32, u32, u32, Option<u32>),
}

/// Which fault, if any, keeps a flat sequence from being a polygon: it has
/// five or six entries, the two group indices fit `usize` and the vertex
/// indices fit `u32`.
pub open spec fn polygon_fault(values: Seq<u64>) -> Option<ArrayFault> {
    if values.len() < 5 {
        Some(ArrayFault::TooShort)
    } else if values.len() > 6 {
        Some(ArrayFault::TooLong)
    } else if values[0] > usize::MAX || values[1] > usize::MAX || exists|k: int|
        2 <= k < values.len() && values[k] > u32::MAX {
        Some(ArrayFault::OutOfRange)
    } else {
        None
    }
}

impl Polygon {
    /// Reads a polygon from the flat sequence `[group, material group, v0,
    /// v1, v2]` or `[group, material group, v0, v1, v2, v3]`.
    pub fn from_sequence(values: &Vec<u64>) -> (r: Result<Polygon, ParseError>)
        ensures
            match polygon_fault(values@) {
                Some(fault) => r == Err::<Polygon, ParseError>(ParseError::Malformed(fault)),
                None => r is Ok && ({
                    let p = r->Ok_0;
                    &&& p.groups_index == values@[0]
                    &&& p.material_groups_index == values@[1]
                    &&& p.vertex_indices.0 == values@[2]
                    &&& p.vertex_indices.1 == values@[3]
                    &&& p.vertex_indices.2 == values@[4]
                    &&& match p.vertex_indices.3 {
                        Some(v3) => values@.len() == 6 && v3 == values@[5],
                        None => values@.len() == 5,
                    }
                }),
            },
    {
        let n: usize = values.len();
        if n < 5 {
            return Err(ParseError::Malformed(ArrayFault::TooShort));
        }
        if n > 6 {
            return Err(ParseError::Malformed(ArrayFault::TooLong));
        }
        let limit: u64 = u32::MAX as u64;
        if values[0] > usize::MAX as u64 || values[1] > usize::MAX as u64 || values[2] > limit
            || values[3] > limit || values[4] > limit || (n == 6 && values[5] > limit) {
            return Err(ParseError::Malformed(ArrayFault::OutOfRange));
        }
        let v3: Option<u32> = if n == 6 {
            Some(values[5] as u32)
        } else {
            None
        };
        Ok(
            Polygon {
                groups_index: values[0] as usize,
                material_groups_index: values[1] as usize,
                vertex_indices: (values[2] as u32, values[3] as u32, values[4] as u32, v3),
            },
        )
    }

    /// The number of vertices of the face: three or four.
    pub fn vertex_count(&self) -> (r: usize)
        ensures
            r == if self.vertex_indices.3 is Some { 4usize } else { 3usize },
    {
        match self.vertex_indices.3 {
            Some(_) => 4,
            None => 3,
        }
    }
}

/// A node as a document states it, without its channels.
#[derive(Clone, Debug)]
pub struct NodeRecord {
    /// The identifier that other records refer to.
    pub id: String,
    pub name: String,
    pub node_type: NodeType,
    /// The identifier of the parent, where the node has one.
    pub parent: Option<String>,
    pub inherits_scale: bool,
}

/// What a reference leaves once its leading selector character is taken
/// off; an empty reference names nothing.
pub open spec fn selector_target(reference: Seq<char>) -> Option<Seq<char>> {
    if reference.len() == 0 {
        None
    } else {
        Some(reference.subrange(1, reference.len() as int))
    }
}

/// Takes the leading selector character off a reference such as `#hip`.
pub fn strip_selector(reference: &str) -> (r: Option<String>)
    ensures
        match selector_target(reference@) {
            Some(target) => r.is_some() && r.unwrap()@ == target,
            None => r.is_none(),
        },
{
    let n: usize = reference.unicode_len();
    if n == 0 {
        None
    } else {
        Some(reference.substring_char(1, n).to_owned())
    }
}

/// The triangles of one face, as a list of vertex indices: the face itself
/// if it has three vertices, else the two halves on either side of the
/// diagonal from its first to its third vertex.
pub open spec fn polygon_triangles(p: Polygon) -> Seq<u32> {
    let (v0, v1, v2, v3) = p.vertex_indices;
    match v3 {
        Some(v3) => seq![v0, v1, v2, v0, v2, v3],
        None => seq![v0, v1, v2],
    }
}

/// The triangles of a list of faces, face after face.
pub open spec fn triangle_list(polygons: Seq<Polygon>) -> Seq<u32>
    decreases polygons.len(),
{
    if polygons.len() == 0 {
        Seq::empty()
    } else {
        triangle_list(polygons.drop_last()) + polygon_triangles(polygons.last())
    }
}

/// The index list of the triangle mesh that a list of faces describes.
pub fn triangle_indices(polygons: &Vec<Polygon>) -> (r: Vec<u32>)
    ensures
        r@ == triangle_list(polygons@),
{
    let mut r: Vec<u32> = Vec::new();
    let mut i: usize = 0;
    while i < polygons.len()
        invariant
            i <= polygons@.len(),
            r@ == triangle_list(polygons@.take(i as int)),
        decreases polygons@.len() - i,
    {
        let ghost before = r@;
        let (v0, v1, v2, v3) = polygons[i].vertex_indices;
        r.push(v0);
        r.push(v1);
        r.push(v2);
        match v3 {
            Some(v3) => {
                r.push(v0);
                r.push(v2);
                r.push(v3);
            },
            None => {},
        }
        proof {
            assert(polygons@.take(i + 1).drop_last() =~= polygons@.take(i as int));
            assert(polygons@.take(i + 1).last() == polygons@[i as int]);
            assert(r@ =~= before + polygon_triangles(polygons@[i as int]));
        }
        i += 1;
    }
    proof {
        assert(polygons@.take(i as int) =~= polygons@);
    }
    r
}

/// Every vertex index of the face lies below `vertex_count`.
pub open spec fn polygon_in_range(p: Polygon, vertex_count: int) -> bool {
    &&& p.vertex_indices.0 < vertex_count
    &&& p.vertex_indices.1 < vertex_count
    &&& p.vertex_indices.2 < vertex_count
    &&& p.vertex_indices.3 matches Some(v3) ==> v3 < vertex_count
}

/// Whether every face refers to vertices that the geometry has.
pub fn polygons_in_range(polygons: &Vec<Polygon>, vertex_count: usize) -> (r: bool)
    ensures
        r == forall|i: int|
            0 <= i < polygons@.len() ==> polygon_in_range(
                #[trigger] polygons@[i],
                vertex_count as int,
            ),
{
    let mut i: usize = 0;
    while i < polygons.len()
        invariant
            i <= polygons@.len(),
            forall|x: int|
                0 <= x < i ==> polygon_in_range(#[trigger] polygons@[x], vertex_count as int),
        decreases polygons@.len() - i,
    {
        let (v0, v1, v2, v3) = polygons[i].vertex_indices;
        let last_fits = match v3 {
            Some(v3) => (v3 as usize) < vertex_count,
            None => true,
        };
        if !((v0 as usize) < vertex_count && (v1 as usize) < vertex_count && (v2 as usize)
            < vertex_count && last_fits) {
            proof {
                assert(!polygon_in_range(polygons@[i as int], vertex_count as int));
            }
            return false;
        }
        i += 1;
    }
    true
}

/// A geometry as a document states it, without its vertex positions.
#[derive(Clone, Debug)]
pub struct GeometryRecord {
    /// The identifier that other records refer to.
    pub id: String,
    pub name: Option<String>,
    /// The number of vertices.
    pub vertex_count: usize,
    pub polygons: Vec<Polygon>,
    /// The reference to the default set of texture coordinates.
    pub default_uv_set: Option<String>,
}

/// The last position at which a geometry carries the identifier `id`.
pub open spec fn last_geometry(geometries: Seq<GeometryRecord>, id: Seq<char>) -> Option<int>
    decreases geometries.len(),
{
    if geometries.len() == 0 {
        None
    } else if geometries.last().id@ == id {
        Some(geometries.len() - 1)
    } else {
        last_geometry(geometries.drop_last(), id)
    }
}

/// Finds a geometry by its identifier; where several carry it, the last
/// one counts.
pub fn find_geometry(geometries: &Vec<GeometryRecord>, id: &str) -> (r: Option<usize>)
    ensures
        match last_geometry(geometries@, id@) {
            Some(p) => r matches Some(g) && g as int == p && g < geometries@.len(),
            None => r.is_none(),
        },
{
    let mut k: usize = geometries.len();
    proof {
        assert(geometries@.take(k as int) =~= geometries@);
    }
    while k > 0
        invariant
            k <= geometries@.len(),
            last_geometry(geometries@, id@) == last_geometry(geometries@.take(k as int), id@),
        decreases k,
    {
        proof {
            assert(geometries@.take(k as int).drop_last() =~= geometries@.take(k - 1));
            assert(geometries@.take(k as int).last() == geometries@[k - 1]);
        }
        if same_text(geometries[k - 1].id.as_str(), id) {
            return Some(k - 1);
        }
        k -= 1;
    }
    None
}

} // verus!
