//! Scene-graph reconstruction, skin-influence assignment and skin-buffer
//! layout for rigged characters, with machine-checked contracts.
//!
//! - [`document`]: the typed records of a character document and the closed
//!   sets of literals that its enumerated fields accept.
//! - [`hierarchy`]: a rooted, acyclic tree from a flat list of records that
//!   refer to their parents by identifier.
//! - [`skin_binding`]: at most four joint influences per vertex, from sparse
//!   per-joint weight maps.
//! - [`packer`]: the per-frame buffer in which the instances' skinning
//!   transforms lie side by side.
//! - [`reference`]: references from one document into another.

pub mod document;
pub mod hierarchy;
pub mod packer;
pub mod reference;
pub mod skin_binding;

pub use crate::document::{
    group_default, inherits_scale_default, revision_default, visible_default, Array, ChannelType,
    Contributor, EdgeInterpolationMode, GeometryRecord, GeometryType, NodeRecord, NodeType,
    ParseError, Polygon, RotationOrder,
};
pub use crate::hierarchy::{resolve, resolve_with, Hierarchy, Link, Validation};
pub use crate::packer::{DqSkinIndex, SkinBuffer, SkinInstance};
pub use crate::reference::{uv_set_reference, UvSetReference};
pub use crate::skin_binding::{
    assign, bind_skin, Influence, JointClaims, SkinBinding, VertexInfluence, WeightedJoint,
};
