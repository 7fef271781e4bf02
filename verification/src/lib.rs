//! Interactive flame-graph engine: a tree that aggregates stack traces into
//! hierarchical sample counts, search / zoom / sort queries over that tree, a
//! proportional-area layout algorithm with visibility culling, and the state
//! machine of a background sampler that feeds the tree.

pub mod flame;
pub mod fmt;
pub mod layout;
pub mod ordered;
pub mod parse;
pub mod sampler;
pub mod search;
pub mod state;
pub mod widget;
