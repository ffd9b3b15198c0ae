//! Chains of transactions, written as calls.

use crate::transaction::{Transaction, TxCombinator};
use vstd::prelude::*;

verus! {

/// The chain of `first` and then `second`. Longer chains are built from the
/// left: `tx_chain(tx_chain(a, b), c)` applies `a`, then `b`, then `c`.
pub fn tx_chain<T1: Transaction, T2: Transaction>(first: T1, second: T2) -> (chain: TxCombinator<
    T1,
    T2,
>)
    ensures
        chain == (TxCombinator { t1: first, t2: second }),
{
    TxCombinator { t1: first, t2: second }
}

} // verus!
