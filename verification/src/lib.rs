//! A prefix-trie HTTP path router.
//!
//! Path patterns are sequences of segments; a segment is either a literal,
//! matched exactly, or a dynamic wildcard, matching any single path
//! component. Registered routes are stored in a trie keyed by segment, and an
//! incoming path is resolved to at most one route together with the values
//! bound to the dynamic positions of its pattern.

mod context;
mod method;
mod node;
mod path;
mod route;
mod router;
mod segment;

pub use context::Context;
pub use method::Method;
pub use node::Node;
pub use path::Path;
pub use route::Route;
pub use router::Dispatch;
pub use router::Router;
pub use segment::SegKey;
pub use segment::SegView;
pub use segment::Segment;
