//! Induction of binary decision trees from labelled records.
//!
//! Records are described by a [`Schema`] of boolean, ordinal, categorical and
//! composite attributes. [`TreeBuilder::build`] grows a [`DecisionTree`] top-down:
//! at each node every candidate test on every attribute is scored by a caller-supplied
//! gain-ratio function, the best one by the [`DecisionEval`] ranking is kept, and the
//! examples are partitioned in place by it.

pub mod counts;
pub mod decision;
pub mod eval;
pub mod partition;
pub mod schema;
pub mod strategy;
pub mod tree;

pub use counts::{majority, to_counts};
pub use decision::{ArrayDecision, BoolDecision, Decision, EqDecision, OrdDecision, Tuple2Decision};
pub use eval::{DecisionEval, GainRatio};
pub use partition::split_data;
pub use schema::{value_conforms, Schema, Test, Value};
pub use strategy::{evaluate, find_best_decision};
pub use tree::{BuildError, DecisionTree, TreeBuilder};
