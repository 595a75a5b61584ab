//! Lossless JSON encoding of numbers that JavaScript cannot hold exactly.
//!
//! Every integer is written as `{"$$jsone$remap$$": "<decimal text>"}`, and the
//! three non-finite floats as `{"$$jsone$remap$$": 1}` (NaN), `2` (+infinity)
//! and `3` (-infinity). Reading undoes the wrapping before the target type is
//! filled in.
#![allow(unused_imports)]

pub mod decimal;
pub mod value;
pub mod remap;
pub mod read;

use vstd::prelude::*;

verus! {

/// Wrapper that marks a value for remapped (lossless) encoding.
#[derive(Debug, Default, Clone, PartialEq, Eq, Hash, PartialOrd, Ord, Copy)]
pub struct BigInt<T>(pub T);

} // verus!
