//! Supervised classification with CART decision trees and a majority-vote
//! ensemble.
//!
//! Feature values are exact integers (callers pick a fixed-point scale for
//! fractional measurements), split thresholds are stored doubled so that the
//! midpoint between two observed values is represented exactly, and Gini
//! impurity is computed as an exact rational number.  Every comparison the
//! training algorithm makes is therefore exact, and training and prediction
//! are verified to be deterministic functions of their inputs.

pub mod decision_tree;
pub mod random_forest;

