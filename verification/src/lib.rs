//! A verified order-`t` B-tree engine: a balanced multiway search tree with
//! top-down insertion (proactive splitting) and top-down deletion
//! (borrow/merge rebalancing), in the classical minimum-degree discipline.
//! Beside it stand a union-find forest and a dynamic-programming routine
//! for the longest common subsequence of two strings.

pub mod activity;
pub mod btree;
pub mod forest;
pub mod lcs;
