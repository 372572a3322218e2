//! Gradient-boosted decision-tree ensembles: a canonical tree/forest model,
//! its evaluation, and importers for a JSON model document and a
//! line-oriented text dump.
//!
//! Floating-point values are carried as IEEE-754 binary64 bit patterns
//! (`u64`). The library decides NaN-ness and `<` on those patterns itself;
//! where a float has to be computed (an addition, a decimal parse, a logit),
//! the caller hands in the operation.
pub mod bits;
pub mod forest;
pub mod parser;
pub mod tree;

pub use forest::{Forest, MultiOutputForest};
pub use tree::{PredictError, Tree, TreeNode};
