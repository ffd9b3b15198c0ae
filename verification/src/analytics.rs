//! Ranking of the accounts by the ratio of what their histories deposit to
//! what they withdraw.

use crate::accounts::Ledger;
use crate::operations::{
    lemma_totals_step, total_deposits, total_withdrawals, BalanceView, OpKind,
};
use crate::storage::Storage;
use vstd::prelude::*;

verus! {

/// The deposits and the withdrawals of a history, each summed up. They stand
/// for the ratio of the first to the second, which is kept exact this way.
///
/// A history that deposits and never withdraws has an infinite ratio: it
/// ranks above every history that withdraws, and level with every other of
/// its kind. A history that does neither has no ratio, and ranks below every
/// history that has one.
#[derive(Debug, Clone, Copy, PartialEq, Eq)]
pub struct Ratio {
    pub deposits: u128,
    pub withdrawals: u128,
}

/// 2^96. The totals of a history stay below it: a history holds no more than
/// 2^64 operations, of less than 2^32 each.
pub const TOTAL_LIMIT: u128 = 0x1_0000_0000_0000_0000_0000_0000;

/// 2^48, the square root of [`TOTAL_LIMIT`].
const HALF_LIMIT: u128 = 0x1_0000_0000_0000;

/// Whether the ratio of `deposits` to `withdrawals` is strictly greater than
/// that of `other_deposits` to `other_withdrawals`.
pub open spec fn outranks(
    deposits: nat,
    withdrawals: nat,
    other_deposits: nat,
    other_withdrawals: nat,
) -> bool {
    if other_deposits == 0 && other_withdrawals == 0 {
        deposits > 0 || withdrawals > 0
    } else {
        deposits * other_withdrawals > other_deposits * withdrawals
    }
}

impl Ratio {
    /// Whether this ratio is strictly greater than `other`.
    pub open spec fn above(self, other: Ratio) -> bool {
        outranks(
            self.deposits as nat,
            self.withdrawals as nat,
            other.deposits as nat,
            other.withdrawals as nat,
        )
    }
}

/// Whether the history of `a` has a strictly greater ratio than that of `b`.
pub open spec fn beats(a: BalanceView, b: BalanceView) -> bool {
    outranks(
        total_deposits(a.last_ops),
        total_withdrawals(a.last_ops),
        total_deposits(b.last_ops),
        total_withdrawals(b.last_ops),
    )
}

/// Whether the account at position `k` is the best of the ledger: no account
/// beats it, and it beats every account before it.
pub open spec fn is_best(ledger: Ledger, k: int) -> bool {
    &&& 0 <= k < ledger.len()
    &&& forall|j: int|
        0 <= j < ledger.len() ==> !beats(#[trigger] ledger.balance_at(j), ledger.balance_at(k))
    &&& forall|j: int| 0 <= j < k ==> beats(ledger.balance_at(k), #[trigger] ledger.balance_at(j))
}

/// A ratio is not greater than itself.
pub proof fn lemma_outranks_irreflexive(d: nat, w: nat)
    ensures
        !outranks(d, w, d, w),
{
}

/// Greater than greater is greater.
pub proof fn lemma_outranks_transitive(d1: nat, w1: nat, d2: nat, w2: nat, d3: nat, w3: nat)
    requires
        outranks(d1, w1, d2, w2),
        outranks(d2, w2, d3, w3),
    ensures
        outranks(d1, w1, d3, w3),
{
    if d3 == 0 && w3 == 0 {
        if d1 == 0 && w1 == 0 {
            assert(0 * w2 == 0 && d2 * 0 == 0) by (nonlinear_arith);
        }
    } else {
        assert(d2 * w3 > d3 * w2);
        assert(d2 > 0 && w3 > 0) by (nonlinear_arith)
            requires
                d2 * w3 > d3 * w2,
                d3 >= 0,
                w2 >= 0,
                d2 >= 0,
                w3 >= 0,
        ;
        assert(d1 * w2 > d2 * w1);
        assert(d1 * w3 > d3 * w1) by (nonlinear_arith)
            requires
                d1 * w2 > d2 * w1,
                d2 * w3 > d3 * w2,
                d1 >= 0,
                w1 >= 0,
                d2 > 0,
                w2 >= 0,
                d3 >= 0,
                w3 > 0,
        ;
    }
}

/// What is greater than one of two, of which the other is not greater, is
/// greater than that other too.
pub proof fn lemma_outranks_passes(d1: nat, w1: nat, d2: nat, w2: nat, d3: nat, w3: nat)
    requires
        outranks(d1, w1, d2, w2),
        !outranks(d3, w3, d2, w2),
    ensures
        outranks(d1, w1, d3, w3),
{
    if d2 == 0 && w2 == 0 {
    } else if d3 == 0 && w3 == 0 {
        assert(d1 > 0) by (nonlinear_arith)
            requires
                d1 * w2 > d2 * w1,
                d1 >= 0,
                d2 >= 0,
                w1 >= 0,
                w2 >= 0,
        ;
    } else {
        assert(d1 * w3 > d3 * w1) by (nonlinear_arith)
            requires
                d1 * w2 > d2 * w1,
                d3 * w2 <= d2 * w3,
                d1 >= 0,
                w1 >= 0,
                d2 >= 0,
                w2 >= 0,
                d3 >= 0,
                w3 >= 0,
                d3 > 0 || w3 > 0,
        ;
    }
}

/// No history beats itself.
pub proof fn lemma_beats_irreflexive(a: BalanceView)
    ensures
        !beats(a, a),
{
    lemma_outranks_irreflexive(total_deposits(a.last_ops), total_withdrawals(a.last_ops));
}

/// A history that beats one that beats a third beats the third.
pub proof fn lemma_beats_transitive(a: BalanceView, b: BalanceView, c: BalanceView)
    requires
        beats(a, b),
        beats(b, c),
    ensures
        beats(a, c),
{
    lemma_outranks_transitive(
        total_deposits(a.last_ops),
        total_withdrawals(a.last_ops),
        total_deposits(b.last_ops),
        total_withdrawals(b.last_ops),
        total_deposits(c.last_ops),
        total_withdrawals(c.last_ops),
    );
}

/// A history that beats one that a third does not beat beats the third.
pub proof fn lemma_beats_passes(a: BalanceView, b: BalanceView, c: BalanceView)
    requires
        beats(a, b),
        !beats(c, b),
    ensures
        beats(a, c),
{
    lemma_outranks_passes(
        total_deposits(a.last_ops),
        total_withdrawals(a.last_ops),
        total_deposits(b.last_ops),
        total_withdrawals(b.last_ops),
        total_deposits(c.last_ops),
        total_withdrawals(c.last_ops),
    );
}

/// A ledger has at most one best account.
pub proof fn lemma_best_unique(ledger: Ledger, k: int, m: int)
    requires
        is_best(ledger, k),
        is_best(ledger, m),
    ensures
        k == m,
{
    if k < m {
        assert(beats(ledger.balance_at(m), ledger.balance_at(k)));
        assert(!beats(ledger.balance_at(m), ledger.balance_at(k)));
    } else if m < k {
        assert(beats(ledger.balance_at(k), ledger.balance_at(m)));
        assert(!beats(ledger.balance_at(k), ledger.balance_at(m)));
    }
}

/// The position of the best account of a ledger that has accounts.
pub open spec fn best_slot(ledger: Ledger) -> int
    recommends
        ledger.len() > 0,
{
    choose|k: int| is_best(ledger, k)
}

/// The product of two numbers below 2^96, as the multiple of 2^96 in it and
/// the rest.
fn wide_product(x: u128, y: u128) -> (p: (u128, u128))
    requires
        x < TOTAL_LIMIT,
        y < TOTAL_LIMIT,
    ensures
        p.0 * TOTAL_LIMIT + p.1 == x * y,
        p.1 < TOTAL_LIMIT,
{
    let half = HALF_LIMIT;
    let full = TOTAL_LIMIT;
    let x1: u128 = x / half;
    let x0: u128 = x % half;
    let y1: u128 = y / half;
    let y0: u128 = y % half;
    proof {
        assert(x1 * y1 <= 0xffff_ffff_ffff * 0xffff_ffff_ffff) by (nonlinear_arith)
            requires
                x1 <= 0xffff_ffff_ffff,
                y1 <= 0xffff_ffff_ffff,
        ;
        assert(x1 * y0 <= 0xffff_ffff_ffff * 0xffff_ffff_ffff) by (nonlinear_arith)
            requires
                x1 <= 0xffff_ffff_ffff,
                y0 <= 0xffff_ffff_ffff,
        ;
        assert(x0 * y1 <= 0xffff_ffff_ffff * 0xffff_ffff_ffff) by (nonlinear_arith)
            requires
                x0 <= 0xffff_ffff_ffff,
                y1 <= 0xffff_ffff_ffff,
        ;
        assert(x0 * y0 <= 0xffff_ffff_ffff * 0xffff_ffff_ffff) by (nonlinear_arith)
            requires
                x0 <= 0xffff_ffff_ffff,
                y0 <= 0xffff_ffff_ffff,
        ;
        assert(x * y == (x1 * y1) * TOTAL_LIMIT + (x1 * y0 + x0 * y1) * HALF_LIMIT + x0 * y0)
            by (nonlinear_arith)
            requires
                x == x1 * HALF_LIMIT + x0,
                y == y1 * HALF_LIMIT + y0,
        ;
    }
    let top: u128 = x1 * y1;
    let middle: u128 = x1 * y0 + x0 * y1;
    let bottom: u128 = x0 * y0;
    let low: u128 = (middle % half) * half + bottom;
    let high: u128 = top + middle / half + low / full;
    (high, low % full)
}

/// Whether `a * b` is greater than `c * d`, for numbers below 2^96.
fn product_exceeds(a: u128, b: u128, c: u128, d: u128) -> (r: bool)
    requires
        a < TOTAL_LIMIT,
        b < TOTAL_LIMIT,
        c < TOTAL_LIMIT,
        d < TOTAL_LIMIT,
    ensures
        r == (a * b > c * d),
{
    let left = wide_product(a, b);
    let right = wide_product(c, d);
    left.0 > right.0 || (left.0 == right.0 && left.1 > right.1)
}

/// The totals of a history.
fn totals(ops: &Vec<OpKind>) -> (ratio: Ratio)
    ensures
        ratio.deposits == total_deposits(ops@),
        ratio.withdrawals == total_withdrawals(ops@),
        ratio.deposits < TOTAL_LIMIT,
        ratio.withdrawals < TOTAL_LIMIT,
{
    let mut deposits: u128 = 0;
    let mut withdrawals: u128 = 0;
    let mut i: usize = 0;
    proof {
        assert(ops@.take(0) =~= Seq::<OpKind>::empty());
    }
    while i < ops.len()
        invariant
            i <= ops.len(),
            deposits == total_deposits(ops@.take(i as int)),
            withdrawals == total_withdrawals(ops@.take(i as int)),
            deposits <= i * 0xffff_ffff,
            withdrawals <= i * 0xffff_ffff,
        decreases ops.len() - i,
    {
        proof {
            lemma_totals_step(ops@, i as int);
        }
        match ops[i] {
            OpKind::Deposit(amount) => {
                deposits += amount as u128;
            },
            OpKind::Withdraw(amount) => {
                withdrawals += amount as u128;
            },
            OpKind::CloseAccount => {},
        }
        i += 1;
    }
    proof {
        assert(ops@.take(ops.len() as int) =~= ops@);
    }
    Ratio { deposits, withdrawals }
}

/// Whether `a` is strictly greater than `b`.
fn is_above(a: &Ratio, b: &Ratio) -> (r: bool)
    requires
        a.deposits < TOTAL_LIMIT,
        a.withdrawals < TOTAL_LIMIT,
        b.deposits < TOTAL_LIMIT,
        b.withdrawals < TOTAL_LIMIT,
    ensures
        r == a.above(*b),
{
    if b.deposits == 0 && b.withdrawals == 0 {
        a.deposits > 0 || a.withdrawals > 0
    } else {
        product_exceeds(a.deposits, b.withdrawals, b.deposits, a.withdrawals)
    }
}

/// The account whose history has the greatest ratio of deposits to
/// withdrawals, by name, with that ratio; of several with the greatest ratio,
/// the one that was opened first. `None` where the store has no accounts.
pub fn find_best(storage: &Storage) -> (best: Option<(&str, Ratio)>)
    ensures
        best is None <==> storage@.len() == 0,
        best matches Some((name, ratio)) ==> {
            &&& is_best(storage@, best_slot(storage@))
            &&& name@ == storage@.name_at(best_slot(storage@))
            &&& ratio.deposits == total_deposits(
                storage@.balance_at(best_slot(storage@)).last_ops,
            )
            &&& ratio.withdrawals == total_withdrawals(
                storage@.balance_at(best_slot(storage@)).last_ops,
            )
        },
{
    let n = storage.accounts.len();
    let mut best: Option<(&str, Ratio)> = None;
    let ghost mut slot: int = 0;
    let mut i: usize = 0;
    while i < n
        invariant
            i <= n,
            n == storage@.len(),
            best is None <==> i == 0,
            best matches Some((name, ratio)) ==> {
                &&& 0 <= slot < i
                &&& name@ == storage@.name_at(slot)
                &&& ratio.deposits == total_deposits(storage@.balance_at(slot).last_ops)
                &&& ratio.withdrawals == total_withdrawals(storage@.balance_at(slot).last_ops)
                &&& ratio.deposits < TOTAL_LIMIT
                &&& ratio.withdrawals < TOTAL_LIMIT
                &&& forall|j: int|
                    0 <= j < i ==> !beats(
                        #[trigger] storage@.balance_at(j),
                        storage@.balance_at(slot),
                    )
                &&& forall|j: int|
                    0 <= j < slot ==> beats(
                        storage@.balance_at(slot),
                        #[trigger] storage@.balance_at(j),
                    )
            },
        decreases n - i,
    {
        if let Some((name, balance)) = storage.accounts.get_index(i) {
            let ratio = totals(&balance.last_ops);
            let ghost here = storage@.balance_at(i as int);
            let better = match best {
                Some((_, leader)) => is_above(&ratio, &leader),
                None => true,
            };
            if better {
                proof {
                    // The new leader beats the old, so it beats every account
                    // before it, and none of them beats it.
                    let leader = storage@.balance_at(slot);
                    lemma_beats_irreflexive(here);
                    if i > 0 {
                        assert forall|j: int| 0 <= j < i implies !beats(
                            #[trigger] storage@.balance_at(j),
                            here,
                        ) && beats(here, storage@.balance_at(j)) by {
                            let other = storage@.balance_at(j);
                            lemma_beats_passes(here, leader, other);
                            if beats(other, here) {
                                lemma_beats_transitive(other, here, leader);
                            }
                        }
                    }
                    slot = i as int;
                }
                best = Some((name.as_str(), ratio));
            }
        }
        i += 1;
    }
    proof {
        if n > 0 {
            assert(is_best(storage@, slot));
            lemma_best_unique(storage@, slot, best_slot(storage@));
        }
    }
    best
}

} // verus!
