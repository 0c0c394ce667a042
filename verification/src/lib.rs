//! Rank of dense matrices over GF(2) by the Method of Four Russians.
//!
//! A matrix is a list of rows of equal length, each row a run of 64-bit
//! words, each word 64 columns. [`rank::four_russians_rank`] reduces a
//! matrix to row echelon form and returns its rank, which [`gf2`] defines
//! and [`dimension`] shows to be the largest number of linearly
//! independent rows. The reduction takes the columns in blocks: it finds
//! the pivot rows of a block ([`pivot`]), tabulates all their sums
//! ([`table`]) and clears the block from every later row with one lookup
//! each. What no full block covers is reduced column by column
//! ([`fallback`]).

pub mod error;
pub mod util;
pub mod word;
pub mod gf2;
pub mod dimension;
pub mod row;
pub mod matrix;
pub mod arithmetic;
pub mod rowops;
pub mod pivot;
pub mod table;
pub mod fallback;
pub mod rank;
pub mod render;
