//! Array-backed binary-indexed containers with verified range queries,
//! together with the algebraic abstractions they are generic over and a
//! collection of verified companion utilities.

pub mod algebra;
pub mod bitree;
pub mod chminmax;
pub mod dsu;
pub mod folds;
pub mod geometry;
pub mod gf;
pub mod intalgo;
pub mod laws;
pub mod matrix;
pub mod monoids;
pub mod parenthesis;
pub mod segtree;
pub mod seqalgo;
pub mod slopetrick;
pub mod treemath;
