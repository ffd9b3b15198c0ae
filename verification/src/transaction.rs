//! Transactions: units of work on the store that compose into chains.

use crate::accounts::Ledger;
use crate::operations::BalanceView;
use crate::storage::Storage;
use vstd::prelude::*;
use vstd::std_specs::ops::AddSpecImpl;

verus! {

/// Why a transaction was not applied.
#[derive(Debug)]
pub enum TxError {
    /// The account holds less than the amount to take.
    InsufficientFunds,
    /// The account to take from does not exist.
    InvalidAccount,
}

/// A unit of work on the store. What `apply` does is a function of the
/// ledger it starts from, given by `outcome`.
pub trait Transaction {
    /// Whether every balance that `apply` writes, starting from `before`,
    /// fits in 64 bits.
    spec fn fits(&self, before: Ledger) -> bool;

    /// The ledger that `apply` leaves and the result that it returns when it
    /// starts from `before`.
    spec fn outcome(&self, before: Ledger) -> (Ledger, Result<(), TxError>);

    /// Whether `apply` may be called on `storage`: whether every balance
    /// that it would write fits in 64 bits.
    fn can_apply(&self, storage: &Storage) -> (ok: bool)
        ensures
            ok == self.fits(storage@),
    ;

    /// Applies the transaction to `storage`.
    fn apply(&self, storage: &mut Storage) -> (r: Result<(), TxError>)
        requires
            self.fits(old(storage)@),
        ensures
            final(storage)@ == self.outcome(old(storage)@).0,
            r == self.outcome(old(storage)@).1,
    ;
}

/// Two transactions in sequence. The second is applied only if the first
/// succeeded; what the first did stays done either way.
pub struct TxCombinator<T1, T2> {
    pub t1: T1,
    pub t2: T2,
}

impl<T1: Transaction, T2: Transaction> Transaction for TxCombinator<T1, T2> {
    open spec fn fits(&self, before: Ledger) -> bool {
        &&& self.t1.fits(before)
        &&& self.t1.outcome(before).1 is Ok ==> self.t2.fits(self.t1.outcome(before).0)
    }

    open spec fn outcome(&self, before: Ledger) -> (Ledger, Result<(), TxError>) {
        let first = self.t1.outcome(before);
        if first.1 is Ok {
            self.t2.outcome(first.0)
        } else {
            first
        }
    }

    fn can_apply(&self, storage: &Storage) -> (ok: bool) {
        if !self.t1.can_apply(storage) {
            return false;
        }
        let mut trial = storage.clone();
        match self.t1.apply(&mut trial) {
            Ok(_) => self.t2.can_apply(&trial),
            Err(_) => true,
        }
    }

    fn apply(&self, storage: &mut Storage) -> (r: Result<(), TxError>) {
        self.t1.apply(storage)?;
        self.t2.apply(storage)?;
        Ok(())
    }
}

impl<T1, T2, Rhs: Transaction> core::ops::Add<Rhs> for TxCombinator<T1, T2> {
    type Output = TxCombinator<TxCombinator<T1, T2>, Rhs>;

    fn add(self, rhs: Rhs) -> (chain: Self::Output) {
        TxCombinator { t1: self, t2: rhs }
    }
}

impl<T1, T2, Rhs: Transaction> AddSpecImpl<Rhs> for TxCombinator<T1, T2> {
    open spec fn obeys_add_spec() -> bool {
        true
    }

    open spec fn add_req(self, rhs: Rhs) -> bool {
        true
    }

    open spec fn add_spec(self, rhs: Rhs) -> TxCombinator<TxCombinator<T1, T2>, Rhs> {
        TxCombinator { t1: self, t2: rhs }
    }
}

/// Adds `amount` to `account`. An account that is missing is first opened.
pub struct Deposit {
    pub account: String,
    pub amount: u64,
}

impl Transaction for Deposit {
    open spec fn fits(&self, before: Ledger) -> bool {
        before.funds_of(self.account@) + self.amount <= u64::MAX
    }

    open spec fn outcome(&self, before: Ledger) -> (Ledger, Result<(), TxError>) {
        (before.credit(self.account@, self.amount as nat), Ok(()))
    }

    fn can_apply(&self, storage: &Storage) -> (ok: bool) {
        match storage.accounts.get(self.account.as_str()) {
            Some(balance) => balance.result <= u64::MAX - self.amount,
            None => true,
        }
    }

    fn apply(&self, storage: &mut Storage) -> (r: Result<(), TxError>) {
        proof {
            if !storage@.has(self.account@) {
                storage@.lemma_push(self.account@, BalanceView::zero(), self.account@);
            }
        }
        let balance = storage.accounts.entry_or_default(self.account.clone());
        balance.result += self.amount;
        Ok(())
    }
}

impl<T: Transaction> core::ops::Add<T> for Deposit {
    type Output = TxCombinator<Deposit, T>;

    fn add(self, rhs: T) -> (chain: Self::Output) {
        TxCombinator { t1: self, t2: rhs }
    }
}

impl<T: Transaction> AddSpecImpl<T> for Deposit {
    open spec fn obeys_add_spec() -> bool {
        true
    }

    open spec fn add_req(self, rhs: T) -> bool {
        true
    }

    open spec fn add_spec(self, rhs: T) -> TxCombinator<Deposit, T> {
        TxCombinator { t1: self, t2: rhs }
    }
}

/// Takes `amount` from `account`, if it holds that much. An account that is
/// missing is first opened, and then holds nothing.
pub struct Withdraw {
    pub account: String,
    pub amount: u64,
}

impl Transaction for Withdraw {
    open spec fn fits(&self, before: Ledger) -> bool {
        true
    }

    open spec fn outcome(&self, before: Ledger) -> (Ledger, Result<(), TxError>) {
        if before.funds_of(self.account@) < self.amount {
            (before.opened(self.account@), Err(TxError::InsufficientFunds))
        } else {
            (before.opened(self.account@).debit(self.account@, self.amount as nat), Ok(()))
        }
    }

    fn can_apply(&self, storage: &Storage) -> (ok: bool) {
        true
    }

    fn apply(&self, storage: &mut Storage) -> (r: Result<(), TxError>) {
        proof {
            if !storage@.has(self.account@) {
                storage@.lemma_push(self.account@, BalanceView::zero(), self.account@);
            }
            storage@.opened(self.account@).lemma_set_same(self.account@);
        }
        let balance = storage.accounts.entry_or_default(self.account.clone());
        if balance.result < self.amount {
            return Err(TxError::InsufficientFunds);
        }
        balance.result -= self.amount;
        Ok(())
    }
}

/// Moves `amount` from `from` to `to`. `from` must exist and hold that much;
/// `to` is opened if it is missing.
pub struct Transfer {
    pub from: String,
    pub to: String,
    pub amount: u64,
}

impl Transaction for Transfer {
    open spec fn fits(&self, before: Ledger) -> bool {
        before.has(self.from@) && before.funds_of(self.from@) >= self.amount ==> before.debit(
            self.from@,
            self.amount as nat,
        ).funds_of(self.to@) + self.amount <= u64::MAX
    }

    open spec fn outcome(&self, before: Ledger) -> (Ledger, Result<(), TxError>) {
        if before.funds_of(self.from@) < self.amount {
            (before, Err(TxError::InsufficientFunds))
        } else if !before.has(self.from@) {
            (before, Err(TxError::InvalidAccount))
        } else {
            (
                before.debit(self.from@, self.amount as nat).credit(
                    self.to@,
                    self.amount as nat,
                ),
                Ok(()),
            )
        }
    }

    fn can_apply(&self, storage: &Storage) -> (ok: bool) {
        let available = match storage.accounts.get(self.from.as_str()) {
            Some(balance) => balance.result,
            None => {
                return true;
            },
        };
        if available < self.amount {
            return true;
        }
        proof {
            storage@.lemma_debit(self.from@, self.amount as nat, self.to@);
        }
        if self.from == self.to {
            return true;
        }
        match storage.accounts.get(self.to.as_str()) {
            Some(balance) => balance.result <= u64::MAX - self.amount,
            None => true,
        }
    }

    fn apply(&self, storage: &mut Storage) -> (r: Result<(), TxError>) {
        let from_balance = match storage.accounts.get(self.from.as_str()) {
            Some(balance) => balance.result,
            None => 0,
        };
        if from_balance < self.amount {
            return Err(TxError::InsufficientFunds);
        }
        if let Some(balance) = storage.accounts.get_mut(self.from.as_str()) {
            balance.result -= self.amount;
        } else {
            return Err(TxError::InvalidAccount);
        }
        proof {
            if !storage@.has(self.to@) {
                storage@.lemma_push(self.to@, BalanceView::zero(), self.to@);
            }
        }
        let to_balance = storage.accounts.entry_or_default(self.to.clone());
        to_balance.result += self.amount;
        Ok(())
    }
}

impl<T: Transaction> core::ops::Add<T> for Transfer {
    type Output = TxCombinator<Transfer, T>;

    fn add(self, rhs: T) -> (chain: Self::Output) {
        TxCombinator { t1: self, t2: rhs }
    }
}

impl<T: Transaction> AddSpecImpl<T> for Transfer {
    open spec fn obeys_add_spec() -> bool {
        true
    }

    open spec fn add_req(self, rhs: T) -> bool {
        true
    }

    open spec fn add_spec(self, rhs: T) -> TxCombinator<Transfer, T> {
        TxCombinator { t1: self, t2: rhs }
    }
}

/// A chain does what its first part does, and then, if that succeeded, what
/// its second part does to the ledger that the first left. Where the first
/// fails the second has no effect; where the second fails the effect of the
/// first stays.
pub proof fn lemma_chain<T1: Transaction, T2: Transaction>(
    chain: TxCombinator<T1, T2>,
    before: Ledger,
)
    ensures
        chain.t1.outcome(before).1 is Err ==> chain.outcome(before) == chain.t1.outcome(before),
        chain.t1.outcome(before).1 is Ok ==> chain.outcome(before) == chain.t2.outcome(
            chain.t1.outcome(before).0,
        ),
{
}

/// Chaining is associative: ((a, b), c) and (a, (b, c)) leave the same ledger
/// and return the same result.
pub proof fn lemma_chain_associative<A: Transaction, B: Transaction, C: Transaction>(
    a: A,
    b: B,
    c: C,
    before: Ledger,
)
    ensures
        (TxCombinator { t1: TxCombinator { t1: a, t2: b }, t2: c }).outcome(before) == (TxCombinator {
            t1: a,
            t2: TxCombinator { t1: b, t2: c },
        }).outcome(before),
{
}

/// A deposit always succeeds: the account exists afterwards and holds that
/// much more, and every other account is as it was.
pub proof fn lemma_deposit(tx: Deposit, before: Ledger, other: Seq<char>)
    ensures
        tx.outcome(before).1 is Ok,
        tx.outcome(before).0.has(tx.account@),
        tx.outcome(before).0.funds_of(tx.account@) == before.funds_of(tx.account@) + tx.amount,
        other != tx.account@ ==> tx.outcome(before).0.has(other) == before.has(other),
        other != tx.account@ ==> tx.outcome(before).0.funds_of(other) == before.funds_of(other),
{
    before.lemma_credit(tx.account@, tx.amount as nat, other);
}

/// A withdrawal that the funds cover succeeds and leaves that much less.
pub proof fn lemma_withdraw(tx: Withdraw, before: Ledger)
    requires
        before.funds_of(tx.account@) >= tx.amount,
    ensures
        tx.outcome(before).1 is Ok,
        tx.outcome(before).0.has(tx.account@),
        tx.outcome(before).0.funds_of(tx.account@) == before.funds_of(tx.account@) - tx.amount,
{
    before.lemma_opened(tx.account@, tx.account@);
    before.opened(tx.account@).lemma_debit(tx.account@, tx.amount as nat, tx.account@);
}

/// A withdrawal of more than the account holds fails with
/// `InsufficientFunds`. An account that exists keeps its funds and its
/// history, and the ledger is as it was; an account that did not exist is
/// opened, empty.
pub proof fn lemma_withdraw_over_funds(tx: Withdraw, before: Ledger)
    requires
        before.funds_of(tx.account@) < tx.amount,
    ensures
        tx.outcome(before).1 == Err::<(), TxError>(TxError::InsufficientFunds),
        tx.outcome(before).0 == before.opened(tx.account@),
        before.has(tx.account@) ==> tx.outcome(before).0 == before,
        tx.outcome(before).0.has(tx.account@),
        tx.outcome(before).0.funds_of(tx.account@) == before.funds_of(tx.account@),
        tx.outcome(before).0.balance_of(tx.account@).last_ops == (if before.has(tx.account@) {
            before.balance_of(tx.account@).last_ops
        } else {
            Seq::empty()
        }),
{
    before.lemma_opened(tx.account@, tx.account@);
}

/// A transfer of more than the sender holds fails with `InsufficientFunds`
/// and leaves the ledger as it was.
pub proof fn lemma_transfer_over_funds(tx: Transfer, before: Ledger)
    requires
        before.funds_of(tx.from@) < tx.amount,
    ensures
        tx.outcome(before) == (before, Err::<(), TxError>(TxError::InsufficientFunds)),
{
}

/// A transfer from an account that does not exist fails and leaves the
/// ledger as it was: with `InsufficientFunds` if it asks for anything, with
/// `InvalidAccount` if it asks for nothing.
pub proof fn lemma_transfer_from_missing(tx: Transfer, before: Ledger)
    requires
        !before.has(tx.from@),
    ensures
        tx.outcome(before).0 == before,
        tx.amount > 0 ==> tx.outcome(before).1 == Err::<(), TxError>(
            TxError::InsufficientFunds,
        ),
        tx.amount == 0 ==> tx.outcome(before).1 == Err::<(), TxError>(TxError::InvalidAccount),
{
}

/// A transfer between two accounts, from one that holds the amount:
/// afterwards the sender holds that much less and the receiver that much
/// more, and every other account is as it was.
pub proof fn lemma_transfer(tx: Transfer, before: Ledger, other: Seq<char>)
    requires
        before.has(tx.from@),
        before.funds_of(tx.from@) >= tx.amount,
        tx.from@ != tx.to@,
    ensures
        tx.outcome(before).1 is Ok,
        tx.outcome(before).0.has(tx.from@),
        tx.outcome(before).0.has(tx.to@),
        tx.outcome(before).0.funds_of(tx.from@) == before.funds_of(tx.from@) - tx.amount,
        tx.outcome(before).0.funds_of(tx.to@) == before.funds_of(tx.to@) + tx.amount,
        other != tx.from@ && other != tx.to@ ==> tx.outcome(before).0.has(other) == before.has(
            other,
        ),
        other != tx.from@ && other != tx.to@ ==> tx.outcome(before).0.funds_of(other)
            == before.funds_of(other),
{
    let debited = before.debit(tx.from@, tx.amount as nat);
    before.lemma_debit(tx.from@, tx.amount as nat, tx.from@);
    before.lemma_debit(tx.from@, tx.amount as nat, tx.to@);
    before.lemma_debit(tx.from@, tx.amount as nat, other);
    debited.lemma_credit(tx.to@, tx.amount as nat, tx.from@);
    debited.lemma_credit(tx.to@, tx.amount as nat, other);
}

/// A transfer to an account that does not exist yet, from one that holds
/// `amount` or more: afterwards the sender holds `amount` less, and the
/// receiver exists and holds `amount`.
pub proof fn lemma_transfer_to_new_account(tx: Transfer, before: Ledger)
    requires
        before.has(tx.from@),
        before.funds_of(tx.from@) >= tx.amount,
        !before.has(tx.to@),
    ensures
        tx.outcome(before).1 is Ok,
        tx.outcome(before).0.has(tx.to@),
        tx.outcome(before).0.funds_of(tx.from@) == before.funds_of(tx.from@) - tx.amount,
        tx.outcome(before).0.funds_of(tx.to@) == tx.amount,
{
    lemma_transfer(tx, before, tx.to@);
}

/// A transfer of an account to itself, of an amount that it holds, changes
/// no funds.
pub proof fn lemma_transfer_to_self(tx: Transfer, before: Ledger)
    requires
        before.has(tx.from@),
        before.funds_of(tx.from@) >= tx.amount,
        tx.from@ == tx.to@,
    ensures
        tx.outcome(before).1 is Ok,
        tx.outcome(before).0.funds_of(tx.from@) == before.funds_of(tx.from@),
{
    let debited = before.debit(tx.from@, tx.amount as nat);
    before.lemma_debit(tx.from@, tx.amount as nat, tx.from@);
    debited.lemma_credit(tx.from@, tx.amount as nat, tx.from@);
}

/// A deposit followed by a transfer of more than the sender then holds: the
/// chain fails with `InsufficientFunds`, and the deposit stays done.
pub proof fn lemma_deposit_stays_when_transfer_fails(
    deposit: Deposit,
    transfer: Transfer,
    before: Ledger,
)
    requires
        before.credit(deposit.account@, deposit.amount as nat).funds_of(transfer.from@)
            < transfer.amount,
    ensures
        (TxCombinator { t1: deposit, t2: transfer }).outcome(before) == (
            before.credit(deposit.account@, deposit.amount as nat),
            Err::<(), TxError>(TxError::InsufficientFunds),
        ),
        (TxCombinator { t1: deposit, t2: transfer }).outcome(before).0.funds_of(deposit.account@)
            == before.funds_of(deposit.account@) + deposit.amount,
{
    before.lemma_credit(deposit.account@, deposit.amount as nat, deposit.account@);
}

} // verus!
