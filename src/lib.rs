use vstd::prelude::*;

pub mod candles;
pub mod ledger;
pub mod market;
pub mod middleware;
pub mod numeric;
pub mod service;
pub mod types;

verus! {

/// Appends `suffix` to a copy of `base`.
pub fn push(base: &str, suffix: &str) -> (r: String)
    ensures
        r@ == base@ + suffix@,
{
    let heap_base = String::from_str(base);
    heap_base.concat(suffix)
}

} // verus!
