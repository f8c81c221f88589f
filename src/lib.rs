//! An append-only arena that hands out stable references to its elements.
//!
//! Elements live in lanes whose capacities double: lane `k` holds `2^(k+1)`
//! elements and is allocated in full when it is first needed, so an element
//! never moves once it has been pushed.
use vstd::prelude::*;

pub mod bunch;
pub mod lanes;

pub use bunch::Bunch;

verus! {

} // verus!
