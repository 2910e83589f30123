pub mod copy;
pub mod decode;
pub mod encode;
pub mod equality;
pub mod error;
pub mod laws;
pub mod marker;
pub mod model;
pub mod parse;
pub mod value;

pub use decode::decode;
pub use encode::encode;
pub use error::Error;
pub use marker::{Marker, Signature};
pub use value::{BoltMap, Node, Path, Relationship, UnboundRelationship, Value};
