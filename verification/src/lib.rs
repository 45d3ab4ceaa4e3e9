//! A rope over elements that carry a nonnegative integer width.
//!
//! The rope is a balanced tree of bounded leaves. Every subtree caches its
//! element count and total width, which gives O(log n) addressing both by
//! element index and by accumulated width, including at the boundaries of
//! zero-width elements.

mod branch_children;
mod leaf_slice;
mod measurable;
mod node;
mod rope;
mod rope_builder;
mod slice_info;
mod widths;

pub use branch_children::BranchChildren;
pub use leaf_slice::LeafSlice;
pub use measurable::Lipsum;
pub use measurable::Measurable;
pub use node::Node;
pub use node::MAX_CHILDREN;
pub use node::MAX_LEN;
pub use node::MIN_CHILDREN;
pub use node::MIN_LEN;
pub use rope::Rope;
pub use rope_builder::RopeBuilder;
pub use slice_info::SliceInfo;
