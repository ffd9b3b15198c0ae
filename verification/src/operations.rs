//! One account: its funds, its history, and the processor that applies a
//! batch of operations to it.

use vstd::prelude::*;

verus! {

/// An operation that can be asked of an account.
#[derive(Debug, Clone, Copy, PartialEq)]
pub enum OpKind {
    /// Adds the amount to the funds.
    Deposit(u32),
    /// Takes the amount from the funds, if they cover it.
    Withdraw(u32),
    /// Marks the end of an account. It is never applied, and ends a batch.
    CloseAccount,
}

/// An account's funds and the operations that were applied to it, oldest
/// first.
#[derive(Debug, PartialEq)]
pub struct Balance {
    pub result: u64,
    pub last_ops: Vec<OpKind>,
}

/// What a [`Balance`] holds, as mathematical values.
#[verifier::ext_equal]
pub struct BalanceView {
    pub result: nat,
    pub last_ops: Seq<OpKind>,
}

impl View for Balance {
    type V = BalanceView;

    open spec fn view(&self) -> BalanceView {
        BalanceView { result: self.result as nat, last_ops: self.last_ops@ }
    }
}

impl BalanceView {
    /// The account that holds nothing and has no history.
    pub open spec fn zero() -> BalanceView {
        BalanceView { result: 0, last_ops: Seq::empty() }
    }

    /// The same history with `amount` more funds.
    pub open spec fn credited(self, amount: nat) -> BalanceView {
        BalanceView { result: self.result + amount, last_ops: self.last_ops }
    }

    /// The same history with `amount` less funds.
    pub open spec fn debited(self, amount: nat) -> BalanceView
        recommends
            amount <= self.result,
    {
        BalanceView { result: (self.result - amount) as nat, last_ops: self.last_ops }
    }

    /// Whether the funds are what the history accounts for: its deposits less
    /// its withdrawals. This holds of an account that was only ever changed
    /// by operations.
    pub open spec fn settled(self) -> bool {
        self.result == balance_after(0, self.last_ops)
    }

    /// The account after a deposit of `amount`, recorded in operations of 32
    /// bits at most.
    pub open spec fn with_deposit(self, amount: nat) -> BalanceView {
        BalanceView {
            result: self.result + amount,
            last_ops: self.last_ops + deposits_of(amount),
        }
    }

    /// The account after a withdrawal of `amount`, recorded in operations of
    /// 32 bits at most.
    pub open spec fn with_withdrawal(self, amount: nat) -> BalanceView
        recommends
            amount <= self.result,
    {
        BalanceView {
            result: (self.result - amount) as nat,
            last_ops: self.last_ops + withdrawals_of(amount),
        }
    }

    /// The account after `op` was applied to it and written into its history.
    pub open spec fn applied(self, op: OpKind) -> BalanceView
        recommends
            allowed(self.result as int, op),
    {
        BalanceView {
            result: (self.result + deposited(op) - withdrawn(op)) as nat,
            last_ops: self.last_ops.push(op),
        }
    }
}

/// What `op` adds to an account.
pub open spec fn deposited(op: OpKind) -> nat {
    match op {
        OpKind::Deposit(amount) => amount as nat,
        _ => 0,
    }
}

/// What `op` takes from an account.
pub open spec fn withdrawn(op: OpKind) -> nat {
    match op {
        OpKind::Withdraw(amount) => amount as nat,
        _ => 0,
    }
}

/// The deposits that record `amount`: one deposit where `amount` fits in 32
/// bits; else a deposit of the most that 32 bits hold, and then the deposits
/// that record the rest.
pub open spec fn deposits_of(amount: nat) -> Seq<OpKind>
    decreases amount,
{
    if amount <= u32::MAX {
        seq![OpKind::Deposit(amount as u32)]
    } else {
        seq![OpKind::Deposit(u32::MAX)] + deposits_of((amount - u32::MAX) as nat)
    }
}

/// The withdrawals that record `amount`: one withdrawal where `amount` fits
/// in 32 bits; else a withdrawal of the most that 32 bits hold, and then the
/// withdrawals that record the rest.
pub open spec fn withdrawals_of(amount: nat) -> Seq<OpKind>
    decreases amount,
{
    if amount <= u32::MAX {
        seq![OpKind::Withdraw(amount as u32)]
    } else {
        seq![OpKind::Withdraw(u32::MAX)] + withdrawals_of((amount - u32::MAX) as nat)
    }
}

/// The sum of the deposits among `ops`.
pub open spec fn total_deposits(ops: Seq<OpKind>) -> nat
    decreases ops.len(),
{
    if ops.len() == 0 {
        0
    } else {
        total_deposits(ops.drop_last()) + deposited(ops.last())
    }
}

/// The sum of the withdrawals among `ops`.
pub open spec fn total_withdrawals(ops: Seq<OpKind>) -> nat
    decreases ops.len(),
{
    if ops.len() == 0 {
        0
    } else {
        total_withdrawals(ops.drop_last()) + withdrawn(ops.last())
    }
}

/// The funds of an account that held `start` and to which all of `ops` were
/// applied.
pub open spec fn balance_after(start: nat, ops: Seq<OpKind>) -> int {
    start + total_deposits(ops) - total_withdrawals(ops)
}

/// Whether an account that holds `balance` takes `op`: a deposit always, a
/// withdrawal that the funds cover, a close marker never.
pub open spec fn allowed(balance: int, op: OpKind) -> bool {
    match op {
        OpKind::Deposit(_) => true,
        OpKind::Withdraw(amount) => balance >= amount,
        OpKind::CloseAccount => false,
    }
}

/// Whether the first `n` of `ops` can be applied, in order, to an account
/// that holds `start`: each is allowed by the funds that its predecessors
/// left.
pub open spec fn applies(start: nat, ops: Seq<OpKind>, n: int) -> bool {
    &&& 0 <= n <= ops.len()
    &&& forall|i: int| 0 <= i < n ==> allowed(balance_after(start, ops.take(i)), #[trigger] ops[i])
}

/// Whether no applicable prefix of `ops` takes an account that holds `start`
/// over what 64 bits hold.
pub open spec fn within_limit(start: nat, ops: Seq<OpKind>) -> bool {
    forall|n: int|
        #[trigger] applies(start, ops, n) ==> balance_after(start, ops.take(n)) <= u64::MAX
}

/// The operations that a sequence of references points to.
pub open spec fn pointed(ops: Seq<&OpKind>) -> Seq<OpKind> {
    ops.map_values(|op: &OpKind| *op)
}

/// The totals of a prefix grow by what the next operation deposits and
/// withdraws.
pub proof fn lemma_totals_step(ops: Seq<OpKind>, i: int)
    requires
        0 <= i < ops.len(),
    ensures
        total_deposits(ops.take(i + 1)) == total_deposits(ops.take(i)) + deposited(ops[i]),
        total_withdrawals(ops.take(i + 1)) == total_withdrawals(ops.take(i)) + withdrawn(ops[i]),
{
    assert(ops.take(i + 1).drop_last() =~= ops.take(i));
}

/// An allowed operation extends the prefix that can be applied, and changes
/// the funds by what it deposits or withdraws.
pub proof fn lemma_apply_next(start: nat, ops: Seq<OpKind>, i: int)
    requires
        0 <= i < ops.len(),
        applies(start, ops, i),
        allowed(balance_after(start, ops.take(i)), ops[i]),
    ensures
        applies(start, ops, i + 1),
        balance_after(start, ops.take(i + 1)) == balance_after(start, ops.take(i)) + deposited(
            ops[i],
        ) - withdrawn(ops[i]),
        ops.take(i + 1) == ops.take(i).push(ops[i]),
{
    lemma_totals_step(ops, i);
    assert(ops.take(i + 1) =~= ops.take(i).push(ops[i]));
    assert forall|j: int| 0 <= j < i + 1 implies allowed(
        balance_after(start, ops.take(j)),
        #[trigger] ops[j],
    ) by {}
}

/// The totals of two sequences in a row are the sums of their totals.
pub proof fn lemma_totals_concat(first: Seq<OpKind>, second: Seq<OpKind>)
    ensures
        total_deposits(first + second) == total_deposits(first) + total_deposits(second),
        total_withdrawals(first + second) == total_withdrawals(first) + total_withdrawals(
            second,
        ),
    decreases second.len(),
{
    if second.len() == 0 {
        assert(first + second =~= first);
    } else {
        lemma_totals_concat(first, second.drop_last());
        assert((first + second).drop_last() =~= first + second.drop_last());
    }
}

/// The deposits that record an amount add up to it, and withdraw nothing.
pub proof fn lemma_deposits_of(amount: nat)
    ensures
        total_deposits(deposits_of(amount)) == amount,
        total_withdrawals(deposits_of(amount)) == 0,
    decreases amount,
{
    if amount <= u32::MAX {
        lemma_single(0, OpKind::Deposit(amount as u32));
    } else {
        let rest = (amount - u32::MAX) as nat;
        lemma_deposits_of(rest);
        lemma_single(0, OpKind::Deposit(u32::MAX));
        lemma_totals_concat(seq![OpKind::Deposit(u32::MAX)], deposits_of(rest));
    }
}

/// The withdrawals that record an amount add up to it, and deposit nothing.
pub proof fn lemma_withdrawals_of(amount: nat)
    ensures
        total_withdrawals(withdrawals_of(amount)) == amount,
        total_deposits(withdrawals_of(amount)) == 0,
    decreases amount,
{
    if amount <= u32::MAX {
        lemma_single(0, OpKind::Withdraw(amount as u32));
    } else {
        let rest = (amount - u32::MAX) as nat;
        lemma_withdrawals_of(rest);
        lemma_single(0, OpKind::Withdraw(u32::MAX));
        lemma_totals_concat(seq![OpKind::Withdraw(u32::MAX)], withdrawals_of(rest));
    }
}

/// A settled account stays settled by a deposit, and by a withdrawal that its
/// funds cover.
pub proof fn lemma_settled_by_amount(before: BalanceView, amount: nat)
    requires
        before.settled(),
    ensures
        before.with_deposit(amount).settled(),
        amount <= before.result ==> before.with_withdrawal(amount).settled(),
{
    lemma_deposits_of(amount);
    lemma_withdrawals_of(amount);
    lemma_totals_concat(before.last_ops, deposits_of(amount));
    lemma_totals_concat(before.last_ops, withdrawals_of(amount));
}

/// What a settled account holds after more operations were applied is what
/// its history, with those operations added, accounts for.
pub proof fn lemma_settled(before: BalanceView, applied: Seq<OpKind>)
    requires
        before.settled(),
    ensures
        balance_after(before.result, applied) == balance_after(0, before.last_ops + applied),
{
    lemma_totals_concat(before.last_ops, applied);
}

/// A prefix deposits no more than the whole sequence.
pub proof fn lemma_total_deposits_prefix(ops: Seq<OpKind>, n: int)
    requires
        0 <= n <= ops.len(),
    ensures
        total_deposits(ops.take(n)) <= total_deposits(ops),
    decreases ops.len() - n,
{
    if n == ops.len() {
        assert(ops.take(n) =~= ops);
    } else {
        lemma_total_deposits_prefix(ops, n + 1);
        lemma_totals_step(ops, n);
    }
}

/// Where the funds and all the deposits together fit in 64 bits, no prefix
/// goes over.
pub proof fn lemma_within_limit(start: nat, ops: Seq<OpKind>)
    requires
        start + total_deposits(ops) <= u64::MAX,
    ensures
        within_limit(start, ops),
{
    assert forall|n: int| #[trigger] applies(start, ops, n) implies balance_after(
        start,
        ops.take(n),
    ) <= u64::MAX by {
        lemma_total_deposits_prefix(ops, n);
    }
}

/// A batch of one operation: it is applied exactly when it is allowed, and
/// then changes the funds by its amount.
pub proof fn lemma_single(start: nat, op: OpKind)
    ensures
        total_deposits(seq![op]) == deposited(op),
        total_withdrawals(seq![op]) == withdrawn(op),
        applies(start, seq![op], 1) == allowed(start as int, op),
        balance_after(start, seq![op].take(0)) == start,
        balance_after(start, seq![op].take(1)) == start + deposited(op) - withdrawn(op),
{
    let ops = seq![op];
    assert(ops.take(0) =~= Seq::<OpKind>::empty());
    assert(ops.take(1) =~= ops);
    assert(ops.drop_last() =~= Seq::<OpKind>::empty());
    assert(ops.last() == op);
    if allowed(start as int, op) {
        assert(applies(start, ops, 1));
    } else {
        assert(ops[0] == op);
    }
}

/// The operations that can be applied never take the funds below zero.
pub proof fn lemma_applied_balance_nonnegative(start: nat, ops: Seq<OpKind>, n: int)
    requires
        applies(start, ops, n),
    ensures
        balance_after(start, ops.take(n)) >= 0,
    decreases n,
{
    if n > 0 {
        lemma_applied_balance_nonnegative(start, ops, n - 1);
        lemma_totals_step(ops, n - 1);
    }
}

/// No more operations can be applied than stand before the first that is
/// refused.
pub proof fn lemma_applies_up_to_refused(start: nat, ops: Seq<OpKind>, i: int)
    requires
        0 <= i < ops.len(),
        !allowed(balance_after(start, ops.take(i)), ops[i]),
    ensures
        forall|n: int| #[trigger] applies(start, ops, n) ==> n <= i,
{
    assert forall|n: int| #[trigger] applies(start, ops, n) implies n <= i by {
        if n > i {
            assert(allowed(balance_after(start, ops.take(i)), ops[i]));
        }
    }
}

/// The prefix that is applied is unique: if the first `n` operations can be
/// applied and the next cannot, no other count has that property.
pub proof fn lemma_applied_prefix_unique(start: nat, ops: Seq<OpKind>, n: int, m: int)
    requires
        applies(start, ops, n),
        n < ops.len() ==> !allowed(balance_after(start, ops.take(n)), ops[n]),
        applies(start, ops, m),
        m < ops.len() ==> !allowed(balance_after(start, ops.take(m)), ops[m]),
    ensures
        n == m,
{
}

impl Balance {
    /// An account with no funds and no history.
    pub fn new() -> (balance: Self)
        ensures
            balance@ == BalanceView::zero(),
    {
        Balance { result: 0, last_ops: Vec::new() }
    }

    /// Whether the account takes `op` as it stands.
    fn takes(&self, op: &OpKind) -> (r: bool)
        ensures
            r == allowed(self.result as int, *op),
    {
        match op {
            OpKind::Deposit(_) => true,
            OpKind::Withdraw(amount) => self.result >= *amount as u64,
            OpKind::CloseAccount => false,
        }
    }

    /// Runs the processor with the one operation `op`, which the account
    /// takes.
    fn apply_one(&mut self, op: OpKind)
        requires
            allowed(old(self)@.result as int, op),
            old(self)@.result + deposited(op) <= u64::MAX,
        ensures
            final(self)@ == old(self)@.applied(op),
    {
        let ops = [&op];
        proof {
            assert(pointed(ops@) =~= seq![op]);
            lemma_single(self@.result, op);
            lemma_within_limit(self@.result, seq![op]);
        }
        let _ = self.process(ops.as_slice());
        assert(self@ =~= old(self)@.applied(op));
    }

    /// Adds `amount` to the funds, and records it in deposits of 32 bits at
    /// most: one where `amount` fits in 32 bits, and one more for each
    /// further `u32::MAX` in it.
    pub fn deposit(&mut self, amount: u64)
        requires
            old(self)@.result + amount <= u64::MAX,
        ensures
            final(self)@ == old(self)@.with_deposit(amount as nat),
    {
        let ghost goal = old(self)@.with_deposit(amount as nat);
        let mut rest: u64 = amount;
        while rest > u32::MAX as u64
            invariant
                self@.result + rest == goal.result,
                goal.result <= u64::MAX,
                self@.last_ops + deposits_of(rest as nat) == goal.last_ops,
            decreases rest,
        {
            let ghost history = self@.last_ops;
            self.apply_one(OpKind::Deposit(u32::MAX));
            rest -= u32::MAX as u64;
            assert(history.push(OpKind::Deposit(u32::MAX)) + deposits_of(rest as nat) =~= history
                + (seq![OpKind::Deposit(u32::MAX)] + deposits_of(rest as nat)));
        }
        let ghost history = self@.last_ops;
        self.apply_one(OpKind::Deposit(rest as u32));
        assert(history.push(OpKind::Deposit(rest as u32)) =~= history + deposits_of(rest as nat));
    }

    /// Takes `amount` from the funds, and records it in withdrawals of 32
    /// bits at most: one where `amount` fits in 32 bits, and one more for
    /// each further `u32::MAX` in it.
    pub fn withdraw(&mut self, amount: u64)
        requires
            amount <= old(self)@.result,
        ensures
            final(self)@ == old(self)@.with_withdrawal(amount as nat),
    {
        let ghost goal = old(self)@.with_withdrawal(amount as nat);
        let mut rest: u64 = amount;
        while rest > u32::MAX as u64
            invariant
                self@.result == goal.result + rest,
                self@.last_ops + withdrawals_of(rest as nat) == goal.last_ops,
            decreases rest,
        {
            let ghost history = self@.last_ops;
            self.apply_one(OpKind::Withdraw(u32::MAX));
            rest -= u32::MAX as u64;
            assert(history.push(OpKind::Withdraw(u32::MAX)) + withdrawals_of(rest as nat)
                =~= history + (seq![OpKind::Withdraw(u32::MAX)] + withdrawals_of(rest as nat)));
        }
        let ghost history = self@.last_ops;
        self.apply_one(OpKind::Withdraw(rest as u32));
        assert(history.push(OpKind::Withdraw(rest as u32)) =~= history + withdrawals_of(
            rest as nat,
        ));
    }

    /// Whether `process` may be called with `ops`: whether no operation that
    /// it would apply takes the funds over what 64 bits hold.
    pub fn can_process(&self, ops: &[&OpKind]) -> (ok: bool)
        ensures
            ok == within_limit(self@.result, pointed(ops@)),
    {
        let ghost start = self@.result;
        let ghost all = pointed(ops@);
        let mut funds: u64 = self.result;
        let mut i: usize = 0;
        while i < ops.len()
            invariant
                i <= ops.len(),
                start == self@.result,
                all == pointed(ops@),
                applies(start, all, i as int),
                funds == balance_after(start, all.take(i as int)),
                forall|n: int|
                    0 <= n <= i ==> balance_after(start, #[trigger] all.take(n)) <= u64::MAX,
            decreases ops.len() - i,
        {
            let refused = match ops[i] {
                OpKind::Deposit(amount) => {
                    if funds > u64::MAX - *amount as u64 {
                        proof {
                            lemma_apply_next(start, all, i as int);
                        }
                        return false;
                    }
                    funds += *amount as u64;
                    false
                },
                OpKind::Withdraw(amount) => {
                    if funds >= *amount as u64 {
                        funds -= *amount as u64;
                        false
                    } else {
                        true
                    }
                },
                OpKind::CloseAccount => true,
            };
            if refused {
                proof {
                    lemma_applies_up_to_refused(start, all, i as int);
                }
                return true;
            }
            proof {
                lemma_apply_next(start, all, i as int);
            }
            i += 1;
        }
        true
    }

    /// Applies `ops` in order until one is not allowed, and returns that one
    /// and all that follow it, in their order. Each applied operation changes
    /// the funds and is added to the history; those returned leave no trace.
    pub fn process<'a>(&mut self, ops: &[&'a OpKind]) -> (rest: Vec<&'a OpKind>)
        requires
            within_limit(old(self)@.result, pointed(ops@)),
        ensures
            // What is returned: the operations from the first refused one on.
            rest@.len() <= ops@.len(),
            rest@ == ops@.skip(ops@.len() - rest@.len()),
            // What was applied: the operations before it, all of them allowed.
            applies(old(self)@.result, pointed(ops@), ops@.len() - rest@.len()),
            rest@.len() > 0 ==> !allowed(final(self)@.result as int, *rest@[0]),
            // What the account holds afterwards.
            final(self)@.result == balance_after(
                old(self)@.result,
                pointed(ops@).take(ops@.len() - rest@.len()),
            ),
            final(self)@.last_ops == old(self)@.last_ops + pointed(ops@).take(
                ops@.len() - rest@.len(),
            ),
            // An account that was settled is settled afterwards.
            old(self)@.settled() ==> final(self)@.settled(),
            // Where all can be applied, none is returned, and the funds are
            // those before, plus the deposits, minus the withdrawals.
            applies(old(self)@.result, pointed(ops@), ops@.len() as int) ==> rest@.len() == 0
                && final(self)@.result == old(self)@.result + total_deposits(pointed(ops@))
                - total_withdrawals(pointed(ops@)),
            // Where the first is refused, all are returned, and the account is
            // as it was.
            ops@.len() > 0 && !allowed(old(self)@.result as int, *ops@[0]) ==> rest@ == ops@
                && final(self)@ == old(self)@,
    {
        let ghost start = self@.result;
        let ghost history = self@.last_ops;
        let ghost all = pointed(ops@);
        let mut i: usize = 0;
        while i < ops.len() && self.takes(ops[i])
            invariant
                all == pointed(ops@),
                within_limit(start, all),
                applies(start, all, i as int),
                self@.result == balance_after(start, all.take(i as int)),
                self@.last_ops == history + all.take(i as int),
            decreases ops.len() - i,
        {
            let op: OpKind = *ops[i];
            proof {
                lemma_apply_next(start, all, i as int);
            }
            match op {
                OpKind::Deposit(amount) => {
                    self.result += amount as u64;
                },
                OpKind::Withdraw(amount) => {
                    self.result -= amount as u64;
                },
                OpKind::CloseAccount => {},
            }
            self.last_ops.push(op);
            i += 1;
        }
        let applied = i;
        let mut rest: Vec<&'a OpKind> = Vec::new();
        while i < ops.len()
            invariant
                applied <= i <= ops.len(),
                rest@ == ops@.subrange(applied as int, i as int),
            decreases ops.len() - i,
        {
            rest.push(ops[i]);
            i += 1;
        }
        proof {
            if old(self)@.settled() {
                lemma_settled(old(self)@, all.take(applied as int));
            }
            if applies(start, all, ops@.len() as int) {
                lemma_applied_prefix_unique(start, all, applied as int, ops@.len() as int);
                assert(all.take(ops@.len() as int) =~= all);
            }
            if ops@.len() > 0 && !allowed(start as int, all[0]) {
                lemma_applied_prefix_unique(start, all, applied as int, 0);
            }
        }
        rest
    }
}

impl Default for Balance {
    fn default() -> (balance: Self)
        ensures
            balance@ == BalanceView::zero(),
    {
        Balance::new()
    }
}

impl Clone for Balance {
    fn clone(&self) -> (copy: Self)
        ensures
            copy@ == self@,
    {
        Balance { result: self.result, last_ops: self.last_ops.clone() }
    }
}

} // verus!
