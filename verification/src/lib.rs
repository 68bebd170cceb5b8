//! A redundant discrimination tree: an associative memory that takes in
//! excerpts, finite sets of symbols, and answers three kinds of question.
//! The complete match of a query is the node with the least set that holds
//! the query; the partial matches of a query are the nodes that hold a part
//! of it and lead no further into it; and the traces and the epitomes are
//! the nodes that were seen and the nodes that abstract from others.
//!
//! The tree is [`tree::RedundantDiscriminationTree`], its nodes are
//! [`mop::Mop`], and a node's strengths are [`strength::Strength`]s. The
//! sets and maps the tree is built of are [`ordered_set::OrderedSet`] and
//! [`ordered_map::OrderedMap`].
//!
//! Every function is verified. The contracts speak of the tree as a
//! sequence of node views ([`model`]). What holds of every tree is stated in
//! [`laws`]; the notions the proofs rest on are in [`readiness`] (how far the
//! tree is prepared for an excerpt), [`retention`] (what the tree keeps of
//! the sets it took in), [`identity`] (one node for each set), [`search`]
//! (what the enumerations find) and [`set_order`] (the order of sets).
use vstd::prelude::*;

pub mod absorb;
pub mod audit;
pub mod decay;
pub mod identity;
pub mod laws;
pub mod model;
pub mod mop;
pub mod ordered_map;
pub mod ordered_set;
pub mod queries;
pub mod readiness;
pub mod reorganize;
pub mod retention;
pub mod search;
pub mod set_order;
pub mod strength;
pub mod tree;
