//! HTTP header bookkeeping and console-style log formatting helpers.
use vstd::prelude::*;

pub mod headers;
pub mod inspect;
pub mod logging;
pub mod text;

verus! {

} // verus!
