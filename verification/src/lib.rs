//! Transcript segment graphs: a line-oriented text format, the graphs it
//! describes, and the enumeration of source-to-sink paths through them.

pub mod attribute;
pub mod collection;
pub mod edge;
pub mod error;
pub mod exons;
pub mod export;
pub mod fasta;
pub mod float;
pub mod gather;
pub mod graph;
pub mod gtf;
pub mod hash;
pub mod interval;
pub mod json;
pub mod load;
pub mod lookup;
pub mod node;
pub mod number;
pub mod path;
pub mod path_text;
pub mod read;
pub mod record;
pub mod roundtrip;
pub mod scan;
pub mod section;
pub mod text;
pub mod traverse;
pub mod walk;
pub mod walk_proofs;

pub use crate::attribute::{Attribute, AttributeValue};
pub use crate::collection::TSGraph;
pub use crate::edge::EdgeData;
pub use crate::error::ParseReason;
pub use crate::exons::Exons;
pub use crate::export::{to_fa, to_gtf};
pub use crate::interval::Interval;
pub use crate::load::LoadError;
pub use crate::node::NodeData;
pub use crate::path::{PathError, TSGPath};
pub use crate::read::{ReadData, ReadIdentity, Strand};
pub use crate::record::{parse_line, ParseError, Record};
pub use crate::section::{GraphError, GraphSection};
