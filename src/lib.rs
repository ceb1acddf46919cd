//! Decision-tree and k-nearest-neighbour classifiers over an integer-valued
//! feature matrix, with k-fold cross-validation and per-class F1 scoring.

pub mod dataset;
pub mod decision_tree;
pub mod fscore;
pub mod knn;
pub mod point;
pub mod ratio;
pub mod sweep;
