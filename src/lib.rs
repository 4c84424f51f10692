//! Vector clocks: a partially ordered value type for tracking causality of
//! events, with the support routines that let a generalized search tree index
//! them by causal relationship.
#![allow(non_camel_case_types)]

pub mod clock;
pub mod index;
pub mod keys;
pub mod order;

pub use clock::{increment, max, try_valueof, valueat, valueof, vectime};
pub use index::{
    compress, consistent, decompress, penalty, picksplit, union, Split, STRATEGY_NUMBER_CONCURRENT,
    STRATEGY_NUMBER_EQUAL, STRATEGY_NUMBER_GREATER, STRATEGY_NUMBER_LESS,
};
pub use keys::compare_keys;
pub use order::{contained, contains, intersects, same};
