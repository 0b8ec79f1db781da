//! A first-fit, linked-list `malloc`/`free` over a modelled program break.
use vstd::prelude::*;

pub mod diag;
pub mod list;
pub mod malloc;
pub mod mmap;
pub mod types;
pub mod util;

verus! {
} // verus!
