//! A retained-mode scene graph: a tree of shapes, operations and groups that
//! clients rewrite node by node, and that is walked to be drawn.

pub mod aabb;
pub mod arena;
pub mod arith;
pub mod bounds;
pub mod driver;
pub mod engine;
pub mod error;
pub mod forest;
pub mod grow;
pub mod node;
pub mod protocol;
pub mod prune;
pub mod scalar;
pub mod tree;
pub mod update;
pub mod update_laws;
pub mod walk;
pub mod walk_laws;

pub use aabb::Aabb;
pub use arith::Arithmetic;
pub use error::{NodeUpdateError, NodeUpdateResult};
pub use node::{Node, NodeKind};
pub use protocol::{
    ChildUpdate, NewNode, NodeContent, NodeUpdate, NodeUpdateResponse, Operation, Shape, Stroke,
    TreeUpdate,
};
pub use scalar::{Mat3, Scalar, Vec2, Vec3, Vec4};
pub use tree::Tree;
pub use walk::{Silent, WalkEvent, WalkTree};
