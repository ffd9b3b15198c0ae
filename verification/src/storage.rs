//! The store: all accounts by name, and the operations on them.

use crate::accounts::{Accounts, Ledger};
use crate::errors::{result_view, BalanceManagerError, BalanceManagerErrorView};
use crate::operations::{
    deposits_of, lemma_deposits_of, lemma_settled_by_amount, lemma_withdrawals_of,
    total_deposits, total_withdrawals, withdrawals_of, Balance, BalanceView,
};
use crate::Name;
use vstd::prelude::*;

verus! {

/// Whether a deposit of `amount` to `name` keeps the funds within 64 bits.
pub open spec fn deposit_fits(ledger: Ledger, name: Seq<char>, amount: u64) -> bool {
    ledger.has(name) ==> ledger.balance_of(name).result + amount <= u64::MAX
}

/// What a deposit of `amount` to `name` leaves and answers: with no such
/// account nothing changes and the answer is `UserNotFound`; else the
/// account holds `amount` more, and records it: in one deposit where
/// `amount` fits in 32 bits, as an operation holds no more, and in several
/// that add up to it where it does not.
pub open spec fn deposit_outcome(ledger: Ledger, name: Seq<char>, amount: u64) -> (
    Ledger,
    Result<(), BalanceManagerErrorView>,
) {
    if !ledger.has(name) {
        (ledger, Err(BalanceManagerErrorView::UserNotFound(name)))
    } else {
        (
            ledger.set(name, ledger.balance_of(name).with_deposit(amount as nat)),
            Ok(()),
        )
    }
}

/// What a withdrawal of `amount` from `name` leaves and answers: with no such
/// account, or with funds below `amount`, nothing changes and the answer says
/// which; else the account holds `amount` less, and records it: in one
/// withdrawal where `amount` fits in 32 bits, and in several that add up to
/// it where it does not.
pub open spec fn withdraw_outcome(ledger: Ledger, name: Seq<char>, amount: u64) -> (
    Ledger,
    Result<(), BalanceManagerErrorView>,
) {
    if !ledger.has(name) {
        (ledger, Err(BalanceManagerErrorView::UserNotFound(name)))
    } else if ledger.balance_of(name).result < amount {
        (
            ledger,
            Err(
                BalanceManagerErrorView::NotEnoughMoney {
                    required: amount,
                    available: ledger.balance_of(name).result as u64,
                },
            ),
        )
    } else {
        (
            ledger.set(name, ledger.balance_of(name).with_withdrawal(amount as nat)),
            Ok(()),
        )
    }
}

/// Whether a request, a deposit where its first part is true and a
/// withdrawal where it is false, keeps the funds within 64 bits.
pub open spec fn request_fits(ledger: Ledger, request: (bool, Seq<char>, u64)) -> bool {
    request.0 ==> deposit_fits(ledger, request.1, request.2)
}

/// What a request leaves and answers.
pub open spec fn request_outcome(ledger: Ledger, request: (bool, Seq<char>, u64)) -> (
    Ledger,
    Result<(), BalanceManagerErrorView>,
) {
    if request.0 {
        deposit_outcome(ledger, request.1, request.2)
    } else {
        withdraw_outcome(ledger, request.1, request.2)
    }
}

/// Whether every request of a batch that is reached keeps the funds within
/// 64 bits.
pub open spec fn batch_fits(ledger: Ledger, requests: Seq<(bool, Seq<char>, u64)>) -> bool
    decreases requests.len(),
{
    if requests.len() == 0 {
        true
    } else {
        &&& request_fits(ledger, requests[0])
        &&& request_outcome(ledger, requests[0]).1 is Ok ==> batch_fits(
            request_outcome(ledger, requests[0]).0,
            requests.drop_first(),
        )
    }
}

/// What a batch of requests leaves and answers: each request is applied to
/// what its predecessors left, up to and including the first that fails. The
/// answer is that failure, or `Ok` where none fails.
pub open spec fn batch_outcome(ledger: Ledger, requests: Seq<(bool, Seq<char>, u64)>) -> (
    Ledger,
    Result<(), BalanceManagerErrorView>,
)
    decreases requests.len(),
{
    if requests.len() == 0 {
        (ledger, Ok(()))
    } else {
        let first = request_outcome(ledger, requests[0]);
        if first.1 is Ok {
            batch_outcome(first.0, requests.drop_first())
        } else {
            first
        }
    }
}

/// The requests of a batch, as mathematical values.
pub open spec fn requests(operations: Seq<(bool, Name, u64)>) -> Seq<(bool, Seq<char>, u64)> {
    operations.map_values(|r: (bool, Name, u64)| (r.0, r.1@, r.2))
}

/// Names with funds, as mathematical values.
pub open spec fn pairs(list: Seq<(Name, u64)>) -> Seq<(Seq<char>, nat)> {
    list.map_values(|p: (Name, u64)| (p.0@, p.1 as nat))
}

/// Names with amounts to seed a store from, as mathematical values.
pub open spec fn seeds(list: Seq<(Name, u64)>) -> Seq<(Seq<char>, u64)> {
    list.map_values(|p: (Name, u64)| (p.0@, p.1))
}

/// The ledger that is seeded from `list`: for each pair in order, the account
/// is opened if it is missing, and the amount is deposited to it.
pub open spec fn seeded(list: Seq<(Seq<char>, u64)>) -> Ledger
    decreases list.len(),
{
    if list.len() == 0 {
        Ledger::empty()
    } else {
        deposit_outcome(
            seeded(list.drop_last()).opened(list.last().0),
            list.last().0,
            list.last().1,
        ).0
    }
}

/// Whether no name stands twice in `list`.
pub open spec fn names_differ(list: Seq<(Seq<char>, u64)>) -> bool {
    forall|i: int, j: int| 0 <= i < j < list.len() ==> list[i].0 != list[j].0
}

/// Names with amounts as names with funds.
pub open spec fn funds_of_seeds(list: Seq<(Seq<char>, u64)>) -> Seq<(Seq<char>, nat)> {
    list.map_values(|p: (Seq<char>, u64)| (p.0, p.1 as nat))
}

/// Whether the deposit of the pair at position `i` keeps the funds within 64
/// bits, when the pairs before it have been seeded.
pub open spec fn seed_step_fits(list: Seq<(Seq<char>, u64)>, i: int) -> bool
    recommends
        0 <= i < list.len(),
{
    deposit_fits(seeded(list.take(i)).opened(list[i].0), list[i].0, list[i].1)
}

/// Whether seeding from `list` keeps the funds within 64 bits at each step.
pub open spec fn seed_fits(list: Seq<(Seq<char>, u64)>) -> bool {
    forall|i: int| 0 <= i < list.len() ==> #[trigger] seed_step_fits(list, i)
}

/// Deposits to and withdrawals from named accounts.
pub trait BalanceManager {
    /// The accounts that the manager holds.
    spec fn ledger(&self) -> Ledger;

    /// Whether `deposit` may be called with `name` and `amount`: whether the
    /// deposit keeps the funds within 64 bits.
    fn can_deposit(&self, name: &Name, amount: u64) -> (ok: bool)
        ensures
            ok == deposit_fits(self.ledger(), name@, amount),
    ;

    /// Adds `amount` to the account named `name`.
    fn deposit(&mut self, name: &Name, amount: u64) -> (r: Result<(), BalanceManagerError>)
        requires
            deposit_fits(old(self).ledger(), name@, amount),
        ensures
            final(self).ledger() == deposit_outcome(old(self).ledger(), name@, amount).0,
            result_view(r) == deposit_outcome(old(self).ledger(), name@, amount).1,
    ;

    /// Takes `amount` from the account named `name`.
    fn withdraw(&mut self, name: &Name, amount: u64) -> (r: Result<(), BalanceManagerError>)
        ensures
            final(self).ledger() == withdraw_outcome(old(self).ledger(), name@, amount).0,
            result_view(r) == withdraw_outcome(old(self).ledger(), name@, amount).1,
    ;
}

/// All accounts, by name.
pub struct Storage {
    pub accounts: Accounts,
}

impl View for Storage {
    type V = Ledger;

    open spec fn view(&self) -> Ledger {
        self.accounts@
    }
}

impl Default for Storage {
    fn default() -> (storage: Self)
        ensures
            storage@ == Ledger::empty(),
    {
        Storage::new()
    }
}

impl Clone for Storage {
    fn clone(&self) -> (copy: Self)
        ensures
            copy@ == self@,
    {
        Storage { accounts: self.accounts.clone() }
    }
}

impl Storage {
    /// A store without accounts.
    pub fn new() -> (storage: Self)
        ensures
            storage@ == Ledger::empty(),
    {
        Storage { accounts: Accounts::new() }
    }

    /// Opens an empty account for `name` and returns its funds, zero. Where
    /// `name` has an account already, nothing changes and nothing is
    /// returned.
    pub fn add_user(&mut self, name: Name) -> (created: Option<u64>)
        ensures
            old(self)@.has(name@) ==> created is None && final(self)@ == old(self)@,
            !old(self)@.has(name@) ==> created == Some(0u64) && final(self)@ == old(self)@.push(
                name@,
                BalanceView::zero(),
            ),
    {
        if self.accounts.contains_key(name.as_str()) {
            None
        } else {
            let _ = self.accounts.insert(name, Balance::new());
            Some(0)
        }
    }

    /// Removes the account named `name` and returns what it held. Where
    /// there is no such account, nothing changes and nothing is returned.
    pub fn remove_user(&mut self, name: &Name) -> (removed: Option<Balance>)
        ensures
            final(self)@ == old(self)@.without(name@),
            !final(self)@.has(name@),
            match removed {
                Some(balance) => old(self)@.has(name@) && balance@ == old(self)@.balance_of(
                    name@,
                ),
                None => !old(self)@.has(name@) && final(self)@ == old(self)@,
            },
    {
        self.accounts.remove(name.as_str())
    }

    /// A copy of what the account named `name` holds.
    pub fn get_balance(&self, name: &Name) -> (found: Option<Balance>)
        ensures
            match found {
                Some(balance) => self@.has(name@) && balance@ == self@.balance_of(name@),
                None => !self@.has(name@),
            },
    {
        match self.accounts.get(name.as_str()) {
            Some(balance) => Some(balance.clone()),
            None => None,
        }
    }

    /// Every account's name with its funds, in the order in which the
    /// accounts were opened. No name stands twice.
    pub fn get_all(&self) -> (all: Vec<(Name, u64)>)
        ensures
            pairs(all@) == self@.funds(),
            self@.distinct(),
    {
        let mut all: Vec<(Name, u64)> = Vec::new();
        let n = self.accounts.len();
        let mut i: usize = 0;
        while i < n
            invariant
                i <= n,
                n == self@.len(),
                all@.len() == i,
                forall|k: int|
                    0 <= k < i ==> (#[trigger] all@[k]).0@ == self@.name_at(k) && all@[k].1
                        == self@.balance_at(k).result,
            decreases n - i,
        {
            if let Some((name, balance)) = self.accounts.get_index(i) {
                all.push((name.clone(), balance.result));
            }
            i += 1;
        }
        all
    }

    /// Whether `process_if_deposit` may be called with `operations`: whether
    /// no deposit that it would make takes the funds of an account over what
    /// 64 bits hold.
    pub fn can_process_if_deposit(&self, operations: &[(bool, Name, u64)]) -> (ok: bool)
        ensures
            ok == batch_fits(self@, requests(operations@)),
    {
        let ghost all = requests(operations@);
        let mut trial = self.clone();
        let mut i: usize = 0;
        proof {
            assert(all.skip(0) =~= all);
        }
        while i < operations.len()
            invariant
                i <= operations.len(),
                all == requests(operations@),
                batch_fits(self@, all) == batch_fits(trial@, all.skip(i as int)),
            decreases operations.len() - i,
        {
            proof {
                assert(all.skip(i as int).drop_first() =~= all.skip(i + 1));
            }
            let done = if operations[i].0 {
                if !trial.can_deposit(&operations[i].1, operations[i].2) {
                    return false;
                }
                trial.deposit(&operations[i].1, operations[i].2)
            } else {
                trial.withdraw(&operations[i].1, operations[i].2)
            };
            if done.is_err() {
                return true;
            }
            i += 1;
        }
        true
    }

    /// Applies the requests in order: a deposit where the first part is
    /// true, a withdrawal where it is false. Stops at the first that fails and
    /// returns its error; what was applied before stays applied.
    pub fn process_if_deposit(&mut self, operations: &[(bool, Name, u64)]) -> (r: Result<
        (),
        BalanceManagerError,
    >)
        requires
            batch_fits(old(self)@, requests(operations@)),
        ensures
            final(self)@ == batch_outcome(old(self)@, requests(operations@)).0,
            result_view(r) == batch_outcome(old(self)@, requests(operations@)).1,
    {
        let ghost all = requests(operations@);
        let mut i: usize = 0;
        proof {
            assert(all.skip(0) =~= all);
        }
        while i < operations.len()
            invariant
                i <= operations.len(),
                all == requests(operations@),
                batch_fits(self@, all.skip(i as int)),
                batch_outcome(self@, all.skip(i as int)) == batch_outcome(old(self)@, all),
            decreases operations.len() - i,
        {
            proof {
                assert(all.skip(i as int).drop_first() =~= all.skip(i + 1));
            }
            if operations[i].0 {
                self.deposit(&operations[i].1, operations[i].2)?;
            } else {
                self.withdraw(&operations[i].1, operations[i].2)?;
            }
            i += 1;
        }
        Ok(())
    }

    /// A store seeded from names with amounts: for each pair in order, the
    /// account is opened if it is missing, and the amount is deposited to it.
    /// Where no name stands twice, the store holds exactly the pairs, in
    /// their order. `None` where a name stands several times and its amounts
    /// together pass what 64 bits hold.
    pub fn seed(list: &[(Name, u64)]) -> (built: Option<Storage>)
        ensures
            match built {
                Some(storage) => seed_fits(seeds(list@)) && storage@ == seeded(seeds(list@)),
                None => !seed_fits(seeds(list@)),
            },
            names_differ(seeds(list@)) ==> (built matches Some(storage) && storage@.funds()
                == pairs(list@)),
    {
        proof {
            if names_differ(seeds(list@)) {
                lemma_seed_round_trip(seeds(list@));
                assert(funds_of_seeds(seeds(list@)) =~= pairs(list@));
            }
        }
        let ghost all = seeds(list@);
        let mut storage = Storage::new();
        let mut i: usize = 0;
        while i < list.len()
            invariant
                i <= list.len(),
                all == seeds(list@),
                storage@ == seeded(all.take(i as int)),
                forall|k: int| 0 <= k < i ==> #[trigger] seed_step_fits(all, k),
                names_differ(all) ==> seed_fits(all),
            decreases list.len() - i,
        {
            proof {
                assert(all.take(i + 1).drop_last() =~= all.take(i as int));
            }
            let _ = storage.add_user(list[i].0.clone());
            if !storage.can_deposit(&list[i].0, list[i].1) {
                assert(!seed_step_fits(all, i as int));
                return None;
            }
            let _ = storage.deposit(&list[i].0, list[i].1);
            i += 1;
        }
        proof {
            assert(all.take(list.len() as int) =~= all);
        }
        Some(storage)
    }

    /// The store that stands in where no snapshot exists: the accounts of
    /// John, Alice, Bob and Vasya, in this order, all empty.
    pub fn default_users() -> (storage: Storage)
        ensures
            storage@ == Ledger::empty().push("John"@, BalanceView::zero()).push(
                "Alice"@,
                BalanceView::zero(),
            ).push("Bob"@, BalanceView::zero()).push("Vasya"@, BalanceView::zero()),
    {
        let mut storage = Storage::new();
        proof {
            reveal_strlit("John");
            reveal_strlit("Alice");
            reveal_strlit("Bob");
            reveal_strlit("Vasya");
            assert("John"@.len() == 4 && "Alice"@.len() == 5 && "Bob"@.len() == 3);
            assert("Vasya"@[0] == 'V' && "Alice"@[0] == 'A');
        }
        let _ = storage.add_user("John".to_string());
        let _ = storage.add_user("Alice".to_string());
        let _ = storage.add_user("Bob".to_string());
        let _ = storage.add_user("Vasya".to_string());
        storage
    }
}

impl BalanceManager for Storage {
    open spec fn ledger(&self) -> Ledger {
        self@
    }

    fn can_deposit(&self, name: &Name, amount: u64) -> (ok: bool) {
        match self.accounts.get(name.as_str()) {
            Some(balance) => balance.result <= u64::MAX - amount,
            None => true,
        }
    }

    fn deposit(&mut self, name: &Name, amount: u64) -> (r: Result<(), BalanceManagerError>) {
        if let Some(balance) = self.accounts.get_mut(name.as_str()) {
            balance.deposit(amount);
            Ok(())
        } else {
            Err(BalanceManagerError::UserNotFound(name.clone()))
        }
    }

    fn withdraw(&mut self, name: &Name, amount: u64) -> (r: Result<(), BalanceManagerError>) {
        if let Some(balance) = self.accounts.get_mut(name.as_str()) {
            if balance.result >= amount {
                balance.withdraw(amount);
                Ok(())
            } else {
                proof {
                    old(self)@.lemma_set_same(name@);
                }
                Err(
                    BalanceManagerError::NotEnoughMoney {
                        required: amount,
                        available: balance.result,
                    },
                )
            }
        } else {
            Err(BalanceManagerError::UserNotFound(name.clone()))
        }
    }
}

/// What the deposits to `name` among `requests` add up to.
pub open spec fn batch_deposits(requests: Seq<(bool, Seq<char>, u64)>, name: Seq<char>) -> nat
    decreases requests.len(),
{
    if requests.len() == 0 {
        0
    } else if requests[0].0 && requests[0].1 == name {
        requests[0].2 as nat + batch_deposits(requests.drop_first(), name)
    } else {
        batch_deposits(requests.drop_first(), name)
    }
}

/// What the withdrawals from `name` among `requests` add up to.
pub open spec fn batch_withdrawals(requests: Seq<(bool, Seq<char>, u64)>, name: Seq<char>) -> nat
    decreases requests.len(),
{
    if requests.len() == 0 {
        0
    } else if !requests[0].0 && requests[0].1 == name {
        requests[0].2 as nat + batch_withdrawals(requests.drop_first(), name)
    } else {
        batch_withdrawals(requests.drop_first(), name)
    }
}

/// Where all requests of a batch succeed, an account holds afterwards what it
/// held before, plus the deposits to it, minus the withdrawals from it.
pub proof fn lemma_batch_funds(
    ledger: Ledger,
    requests: Seq<(bool, Seq<char>, u64)>,
    name: Seq<char>,
)
    requires
        ledger.has(name),
        batch_outcome(ledger, requests).1 is Ok,
    ensures
        batch_outcome(ledger, requests).0.has(name),
        batch_outcome(ledger, requests).0.funds_of(name) == ledger.funds_of(name) + batch_deposits(
            requests,
            name,
        ) - batch_withdrawals(requests, name),
    decreases requests.len(),
{
    if requests.len() > 0 {
        let first = requests[0];
        let next = request_outcome(ledger, first).0;
        let before = ledger.balance_of(first.1);
        let after = if first.0 {
            before.with_deposit(first.2 as nat)
        } else {
            before.with_withdrawal(first.2 as nat)
        };
        ledger.lemma_set(first.1, after, name);
        lemma_batch_funds(next, requests.drop_first(), name);
    }
}

/// A deposit to an account of the store succeeds and adds the whole amount
/// to its funds, whatever the amount; the deposits that it records add up to
/// the amount; every other account is as it was.
pub proof fn lemma_store_deposit(ledger: Ledger, name: Seq<char>, amount: u64, other: Seq<char>)
    requires
        ledger.has(name),
    ensures
        deposit_outcome(ledger, name, amount).1 is Ok,
        deposit_outcome(ledger, name, amount).0.funds_of(name) == ledger.funds_of(name) + amount,
        deposit_outcome(ledger, name, amount).0.balance_of(name).last_ops == ledger.balance_of(
            name,
        ).last_ops + deposits_of(amount as nat),
        total_deposits(deposits_of(amount as nat)) == amount,
        deposit_outcome(ledger, name, amount).0.has(other) == ledger.has(other),
        other != name ==> deposit_outcome(ledger, name, amount).0.funds_of(other)
            == ledger.funds_of(other),
{
    lemma_deposits_of(amount as nat);
    ledger.lemma_set(name, ledger.balance_of(name).with_deposit(amount as nat), name);
    ledger.lemma_set(name, ledger.balance_of(name).with_deposit(amount as nat), other);
}

/// A withdrawal that the funds of the account cover succeeds and takes the
/// whole amount from them, whatever the amount; the withdrawals that it
/// records add up to the amount; every other account is as it was.
pub proof fn lemma_store_withdraw(ledger: Ledger, name: Seq<char>, amount: u64, other: Seq<char>)
    requires
        ledger.has(name),
        ledger.funds_of(name) >= amount,
    ensures
        withdraw_outcome(ledger, name, amount).1 is Ok,
        withdraw_outcome(ledger, name, amount).0.funds_of(name) == ledger.funds_of(name) - amount,
        withdraw_outcome(ledger, name, amount).0.balance_of(name).last_ops == ledger.balance_of(
            name,
        ).last_ops + withdrawals_of(amount as nat),
        total_withdrawals(withdrawals_of(amount as nat)) == amount,
        withdraw_outcome(ledger, name, amount).0.has(other) == ledger.has(other),
        other != name ==> withdraw_outcome(ledger, name, amount).0.funds_of(other)
            == ledger.funds_of(other),
{
    lemma_withdrawals_of(amount as nat);
    ledger.lemma_set(name, ledger.balance_of(name).with_withdrawal(amount as nat), name);
    ledger.lemma_set(name, ledger.balance_of(name).with_withdrawal(amount as nat), other);
}

/// A withdrawal from the store of more than the account holds changes
/// nothing, not the funds and not the history, and answers with what was
/// asked for and what there is.
pub proof fn lemma_store_withdraw_over_funds(ledger: Ledger, name: Seq<char>, amount: u64)
    requires
        ledger.has(name),
        ledger.funds_of(name) < amount,
    ensures
        withdraw_outcome(ledger, name, amount) == (
            ledger,
            Err::<(), BalanceManagerErrorView>(
                BalanceManagerErrorView::NotEnoughMoney {
                    required: amount,
                    available: ledger.funds_of(name) as u64,
                },
            ),
        ),
{
}

/// A deposit and a withdrawal of the store keep a settled account settled:
/// its funds stay what its history accounts for.
pub proof fn lemma_store_keeps_settled(ledger: Ledger, name: Seq<char>, amount: u64)
    requires
        ledger.has(name),
        ledger.balance_of(name).settled(),
    ensures
        deposit_outcome(ledger, name, amount).0.balance_of(name).settled(),
        withdraw_outcome(ledger, name, amount).0.balance_of(name).settled(),
{
    let before = ledger.balance_of(name);
    lemma_settled_by_amount(before, amount as nat);
    ledger.lemma_set(name, before.with_deposit(amount as nat), name);
    if before.result >= amount {
        ledger.lemma_set(name, before.with_withdrawal(amount as nat), name);
    }
}

/// Seeding from pairs with different names and then listing the accounts
/// gives the same pairs, in the same order, whatever the amounts; and no
/// deposit of the seeding passes what 64 bits hold.
pub proof fn lemma_seed_round_trip(list: Seq<(Seq<char>, u64)>)
    requires
        names_differ(list),
    ensures
        seed_fits(list),
        seeded(list).funds() == funds_of_seeds(list),
{
    lemma_seeded_prefix(list, list.len() as int);
    assert(list.take(list.len() as int) =~= list);
    assert(seeded(list).funds() =~= funds_of_seeds(list));
    assert forall|i: int| 0 <= i < list.len() implies #[trigger] seed_step_fits(list, i) by {
        lemma_seeded_prefix(list, i);
        seeded(list.take(i)).lemma_opened(list[i].0, list[i].0);
    }
}

/// What the first `n` pairs seed, where no name stands twice: one account
/// for each pair, in their order, with the pair's name and amount.
proof fn lemma_seeded_prefix(list: Seq<(Seq<char>, u64)>, n: int)
    requires
        0 <= n <= list.len(),
        names_differ(list),
    ensures
        seeded(list.take(n)).len() == n,
        forall|k: int|
            0 <= k < n ==> #[trigger] seeded(list.take(n)).name_at(k) == list[k].0 && seeded(
                list.take(n),
            ).balance_at(k).result == list[k].1,
        n < list.len() ==> !seeded(list.take(n)).has(list[n].0),
    decreases n,
{
    if n > 0 {
        lemma_seeded_prefix(list, n - 1);
        assert(list.take(n).drop_last() =~= list.take(n - 1));
        let sofar = seeded(list.take(n - 1));
        let after = seeded(list.take(n));
        let name = list[n - 1].0;
        sofar.lemma_push(name, BalanceView::zero(), name);
        let open = sofar.opened(name);
        assert(after == open.set(name, open.balance_of(name).with_deposit(list[n - 1].1 as nat)));
        assert(after.len() == n);
        assert forall|k: int| 0 <= k < n implies #[trigger] after.name_at(k) == list[k].0
            && after.balance_at(k).result == list[k].1 by {
            if k < n - 1 {
                assert(sofar.name_at(k) == list[k].0);
                assert(open.name_at(k) == sofar.name_at(k));
            }
        }
    }
    let after = seeded(list.take(n));
    if n < list.len() && after.has(list[n].0) {
        let k = choose|k: int| 0 <= k < after.len() && #[trigger] after.name_at(k) == list[n].0;
        assert(list[k].0 != list[n].0);
    }
}

} // verus!
