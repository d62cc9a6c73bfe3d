//! A small collection of verified algorithms and data structures:
//! a disjoint-set (union-find) forest with path compression and
//! union by rank, a recursive knapsack solver, an insertion-ordered
//! dictionary, and reversal of the order of the words of a byte string.

pub mod disjoint_set;
pub mod knapsack_problem;
pub mod ordered_dict;
pub mod string_word_swap;
