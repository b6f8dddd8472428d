//! A minimal dataflow pipeline engine: a directed graph of processing stages
//! ("filters") connected by FIFO buffer queues ("edges"), with a scheduler
//! that derives a topological execution order and a cooperative round-robin
//! executor that drives every stage until one of them reports completion.

pub mod buffer;
pub mod edge;
pub mod element;
pub mod filter;
pub mod node;
pub mod pipeline;
pub mod executor;
pub mod schedule;

pub use buffer::Buffer;
pub use edge::Edge;
pub use edge::EdgeIdx;
pub use edge::EdgeType;
pub use element::Element;
pub use element::FilterState;
pub use filter::Filter;
pub use node::Node;
pub use node::NodeIdx;
pub use pipeline::Pipeline;
