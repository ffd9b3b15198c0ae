//! The accounts of a store: a map from names to balances that keeps the order
//! in which the names were first entered.

use crate::operations::{Balance, BalanceView};
use crate::text::same_text;
use vstd::prelude::*;

verus! {

/// What a set of accounts holds, as mathematical values: the names with
/// their balances, in the order in which the names were entered.
#[verifier::ext_equal]
pub struct Ledger {
    pub entries: Seq<(Seq<char>, BalanceView)>,
}

impl Ledger {
    /// The ledger without accounts.
    pub open spec fn empty() -> Ledger {
        Ledger { entries: Seq::empty() }
    }

    /// The number of accounts.
    pub open spec fn len(self) -> nat {
        self.entries.len()
    }

    /// The name of the account at position `i`.
    pub open spec fn name_at(self, i: int) -> Seq<char>
        recommends
            0 <= i < self.len(),
    {
        self.entries[i].0
    }

    /// The balance of the account at position `i`.
    pub open spec fn balance_at(self, i: int) -> BalanceView
        recommends
            0 <= i < self.len(),
    {
        self.entries[i].1
    }

    /// The names with the funds under them, in the ledger's order.
    pub open spec fn funds(self) -> Seq<(Seq<char>, nat)> {
        Seq::new(self.len(), |i: int| (self.name_at(i), self.balance_at(i).result))
    }

    /// Whether there is an account named `name`.
    pub open spec fn has(self, name: Seq<char>) -> bool {
        exists|i: int| 0 <= i < self.len() && #[trigger] self.name_at(i) == name
    }

    /// Whether `i` is the first position at which `name` stands.
    pub open spec fn is_slot(self, name: Seq<char>, i: int) -> bool {
        &&& 0 <= i < self.len()
        &&& self.name_at(i) == name
        &&& forall|j: int| 0 <= j < i ==> #[trigger] self.name_at(j) != name
    }

    /// The first position at which `name` stands.
    pub open spec fn slot(self, name: Seq<char>) -> int
        recommends
            self.has(name),
    {
        choose|i: int| self.is_slot(name, i)
    }

    /// The balance of the account named `name`.
    pub open spec fn balance_of(self, name: Seq<char>) -> BalanceView
        recommends
            self.has(name),
    {
        self.balance_at(self.slot(name))
    }

    /// Whether no name stands twice.
    pub open spec fn distinct(self) -> bool {
        forall|i: int, j: int|
            0 <= i < j < self.len() ==> #[trigger] self.name_at(i) != #[trigger] self.name_at(j)
    }

    /// The ledger with one more account at its end.
    pub open spec fn push(self, name: Seq<char>, balance: BalanceView) -> Ledger {
        Ledger { entries: self.entries.push((name, balance)) }
    }

    /// The ledger in which `name` has an account: itself, or with an empty
    /// account for `name` at its end.
    pub open spec fn opened(self, name: Seq<char>) -> Ledger {
        if self.has(name) {
            self
        } else {
            self.push(name, BalanceView::zero())
        }
    }

    /// The ledger in which the account named `name` holds `balance`.
    pub open spec fn set(self, name: Seq<char>, balance: BalanceView) -> Ledger
        recommends
            self.has(name),
    {
        if self.has(name) {
            Ledger { entries: self.entries.update(self.slot(name), (name, balance)) }
        } else {
            self
        }
    }

    /// The ledger in which `name` holds `balance`, in its old place or as a
    /// new account at the end.
    pub open spec fn put(self, name: Seq<char>, balance: BalanceView) -> Ledger {
        if self.has(name) {
            self.set(name, balance)
        } else {
            self.push(name, balance)
        }
    }

    /// The funds of the account named `name`; zero where there is none.
    pub open spec fn funds_of(self, name: Seq<char>) -> nat {
        if self.has(name) {
            self.balance_of(name).result
        } else {
            0
        }
    }

    /// The ledger in which the account named `name` holds `amount` more. An
    /// account that is missing is first opened.
    pub open spec fn credit(self, name: Seq<char>, amount: nat) -> Ledger {
        let open = self.opened(name);
        open.set(name, open.balance_of(name).credited(amount))
    }

    /// The ledger in which the account named `name` holds `amount` less.
    pub open spec fn debit(self, name: Seq<char>, amount: nat) -> Ledger
        recommends
            self.has(name),
            amount <= self.balance_of(name).result,
    {
        self.set(name, self.balance_of(name).debited(amount))
    }

    /// The ledger without the account named `name`.
    pub open spec fn without(self, name: Seq<char>) -> Ledger {
        if self.has(name) {
            Ledger { entries: self.entries.remove(self.slot(name)) }
        } else {
            self
        }
    }

    /// Among the positions that hold `name`, one is the first.
    proof fn lemma_first_exists(self, name: Seq<char>, k: int)
        requires
            0 <= k < self.len(),
            self.name_at(k) == name,
        ensures
            exists|i: int| self.is_slot(name, i),
        decreases k,
    {
        if forall|j: int| 0 <= j < k ==> #[trigger] self.name_at(j) != name {
            assert(self.is_slot(name, k));
        } else {
            let j = choose|j: int| 0 <= j < k && #[trigger] self.name_at(j) == name;
            self.lemma_first_exists(name, j);
        }
    }

    /// A name that the ledger has stands first at its slot, and nowhere else
    /// first.
    pub proof fn lemma_slot(self, name: Seq<char>)
        requires
            self.has(name),
        ensures
            self.is_slot(name, self.slot(name)),
            forall|i: int| self.is_slot(name, i) ==> i == self.slot(name),
    {
        let k = choose|i: int| 0 <= i < self.len() && #[trigger] self.name_at(i) == name;
        self.lemma_first_exists(name, k);
    }

    /// A new account at the end is found at the end, and leaves every other
    /// name where it was.
    pub proof fn lemma_push(self, name: Seq<char>, balance: BalanceView, other: Seq<char>)
        requires
            !self.has(name),
        ensures
            self.push(name, balance).has(name),
            self.push(name, balance).slot(name) == self.len(),
            self.push(name, balance).balance_of(name) == balance,
            other != name ==> self.push(name, balance).has(other) == self.has(other),
            self.has(other) ==> self.push(name, balance).slot(other) == self.slot(other),
            self.has(other) ==> self.push(name, balance).balance_of(other) == self.balance_of(
                other,
            ),
    {
        let after = self.push(name, balance);
        assert(after.is_slot(name, self.len() as int)) by {
            assert forall|j: int| 0 <= j < self.len() implies #[trigger] after.name_at(j)
                != name by {
                assert(self.name_at(j) == after.name_at(j));
            }
        }
        if self.has(other) {
            self.lemma_slot(other);
            let k = self.slot(other);
            assert(after.is_slot(other, k)) by {
                assert forall|j: int| 0 <= j < k implies #[trigger] after.name_at(j)
                    != other by {
                    assert(self.name_at(j) == after.name_at(j));
                }
            }
        } else if other != name {
            assert forall|j: int| 0 <= j < after.len() implies #[trigger] after.name_at(j)
                != other by {
                if j < self.len() {
                    assert(self.name_at(j) == after.name_at(j));
                }
            }
        }
    }

    /// An account that is given the balance it has leaves the ledger as it
    /// is.
    pub proof fn lemma_set_same(self, name: Seq<char>)
        requires
            self.has(name),
        ensures
            self.set(name, self.balance_of(name)) == self,
    {
        self.lemma_slot(name);
    }

    /// A changed balance moves no name.
    proof fn lemma_set_keeps_names(self, name: Seq<char>, balance: BalanceView, other: Seq<char>)
        requires
            self.has(name),
        ensures
            self.set(name, balance).len() == self.len(),
            self.set(name, balance).has(other) == self.has(other),
            self.has(other) ==> self.set(name, balance).slot(other) == self.slot(other),
            self.has(other) ==> 0 <= self.slot(other) < self.len(),
    {
        let after = self.set(name, balance);
        self.lemma_slot(name);
        assert forall|j: int| 0 <= j < self.len() implies #[trigger] after.name_at(j)
            == self.name_at(j) by {}
        if self.has(other) {
            self.lemma_slot(other);
            assert(after.is_slot(other, self.slot(other)));
        } else {
            assert forall|j: int| 0 <= j < after.len() implies #[trigger] after.name_at(j)
                != other by {}
        }
    }

    /// A changed balance changes no name and no place, and no other balance.
    pub proof fn lemma_set(self, name: Seq<char>, balance: BalanceView, other: Seq<char>)
        requires
            self.has(name),
        ensures
            self.set(name, balance).len() == self.len(),
            self.set(name, balance).has(other) == self.has(other),
            self.has(other) ==> self.set(name, balance).slot(other) == self.slot(other),
            self.set(name, balance).balance_of(name) == balance,
            self.has(other) && other != name ==> self.set(name, balance).balance_of(other)
                == self.balance_of(other),
    {
        self.lemma_set_keeps_names(name, balance, name);
        self.lemma_set_keeps_names(name, balance, other);
        if self.has(other) && other != name {
            assert(self.name_at(self.slot(other)) == other) by {
                self.lemma_slot(other);
            }
            assert(self.name_at(self.slot(name)) == name) by {
                self.lemma_slot(name);
            }
        }
    }

    /// An account that is opened exists, with the balance it had or an empty
    /// one, and every other account is as it was.
    pub proof fn lemma_opened(self, name: Seq<char>, other: Seq<char>)
        ensures
            self.opened(name).has(name),
            self.opened(name).funds_of(name) == self.funds_of(name),
            self.has(name) ==> self.opened(name) == self,
            !self.has(name) ==> self.opened(name).balance_of(name) == BalanceView::zero(),
            other != name ==> self.opened(name).has(other) == self.has(other),
            self.has(other) ==> self.opened(name).balance_of(other) == self.balance_of(other),
            self.opened(name).funds_of(other) == self.funds_of(other),
    {
        if !self.has(name) {
            self.lemma_push(name, BalanceView::zero(), other);
        }
    }

    /// A credited account exists and holds that much more, with its history
    /// as it was; every other account is as it was.
    pub proof fn lemma_credit(self, name: Seq<char>, amount: nat, other: Seq<char>)
        ensures
            self.credit(name, amount).has(name),
            self.credit(name, amount).funds_of(name) == self.funds_of(name) + amount,
            self.credit(name, amount).balance_of(name).last_ops == self.opened(name).balance_of(
                name,
            ).last_ops,
            other != name ==> self.credit(name, amount).has(other) == self.has(other),
            other != name && self.has(other) ==> self.credit(name, amount).balance_of(other)
                == self.balance_of(other),
            other != name ==> self.credit(name, amount).funds_of(other) == self.funds_of(other),
    {
        let open = self.opened(name);
        self.lemma_opened(name, other);
        open.lemma_set(name, open.balance_of(name).credited(amount), other);
        open.lemma_set(name, open.balance_of(name).credited(amount), name);
    }

    /// A debited account holds that much less, with its history as it was;
    /// every other account is as it was.
    pub proof fn lemma_debit(self, name: Seq<char>, amount: nat, other: Seq<char>)
        requires
            self.has(name),
            amount <= self.funds_of(name),
        ensures
            self.debit(name, amount).has(other) == self.has(other),
            self.debit(name, amount).funds_of(name) == self.funds_of(name) - amount,
            self.debit(name, amount).balance_of(name).last_ops == self.balance_of(name).last_ops,
            other != name && self.has(other) ==> self.debit(name, amount).balance_of(other)
                == self.balance_of(other),
            other != name ==> self.debit(name, amount).funds_of(other) == self.funds_of(other),
    {
        self.lemma_set(name, self.balance_of(name).debited(amount), other);
        self.lemma_set(name, self.balance_of(name).debited(amount), name);
    }

    /// Where no name stands twice, a removed account is gone, and every other
    /// account keeps its balance.
    pub proof fn lemma_without(self, name: Seq<char>, other: Seq<char>)
        requires
            self.distinct(),
            self.has(name),
        ensures
            self.without(name).len() == self.len() - 1,
            self.without(name).distinct(),
            !self.without(name).has(name),
            other != name ==> self.without(name).has(other) == self.has(other),
            other != name && self.has(other) ==> self.without(name).balance_of(other)
                == self.balance_of(other),
    {
        let after = self.without(name);
        self.lemma_slot(name);
        let k = self.slot(name);
        assert forall|j: int| 0 <= j < after.len() implies #[trigger] after.name_at(j)
            == self.name_at(if j < k { j } else { j + 1 }) by {}
        assert(after.distinct());
        if other != name && self.has(other) {
            self.lemma_slot(other);
            let m = self.slot(other);
            assert(after.is_slot(other, if m < k { m } else { m - 1 }));
        }
    }
}

/// The accounts of a store: a map from names to balances. No name stands
/// twice, and the accounts keep the order in which their names were entered,
/// so that a walk over them, and with it the choice among accounts that rank
/// alike, is the same each time.
pub struct Accounts {
    names: Vec<String>,
    balances: Vec<Balance>,
}

impl View for Accounts {
    type V = Ledger;

    closed spec fn view(&self) -> Ledger {
        Ledger {
            entries: Seq::new(
                self.names.len() as nat,
                |i: int| (self.names[i]@, self.balances[i]@),
            ),
        }
    }
}

impl Accounts {
    #[verifier::type_invariant]
    spec fn well_formed(self) -> bool {
        &&& self.names.len() == self.balances.len()
        &&& forall|i: int, j: int|
            0 <= i < j < self.names.len() ==> self.names[i]@ != self.names[j]@
    }

    /// No accounts.
    pub fn new() -> (accounts: Self)
        ensures
            accounts@ == Ledger::empty(),
    {
        Accounts { names: Vec::new(), balances: Vec::new() }
    }

    /// The number of accounts. No name stands twice among them.
    pub fn len(&self) -> (n: usize)
        ensures
            n == self@.len(),
            self@.distinct(),
    {
        proof {
            use_type_invariant(self);
        }
        self.names.len()
    }

    /// Whether there is no account.
    pub fn is_empty(&self) -> (r: bool)
        ensures
            r == (self@.len() == 0),
    {
        self.names.len() == 0
    }

    /// The position of the account named `name`.
    pub fn position(&self, name: &str) -> (r: Option<usize>)
        ensures
            match r {
                Some(i) => self@.has(name@) && i == self@.slot(name@) && i < self@.len(),
                None => !self@.has(name@),
            },
    {
        let mut i: usize = 0;
        while i < self.names.len()
            invariant
                i <= self.names.len(),
                self@.len() == self.names.len(),
                forall|k: int| 0 <= k < self.names.len() ==> self@.name_at(k) == self.names[k]@,
                forall|k: int| 0 <= k < i ==> #[trigger] self@.name_at(k) != name@,
            decreases self.names.len() - i,
        {
            if same_text(self.names[i].as_str(), name) {
                proof {
                    assert(self@.is_slot(name@, i as int));
                }
                return Some(i);
            }
            i += 1;
        }
        None
    }

    /// Whether there is an account named `name`.
    pub fn contains_key(&self, name: &str) -> (r: bool)
        ensures
            r == self@.has(name@),
    {
        self.position(name).is_some()
    }

    /// The name and the balance of the account at position `i`, if there are
    /// that many.
    pub fn get_index(&self, i: usize) -> (r: Option<(&String, &Balance)>)
        ensures
            match r {
                Some((name, balance)) => i < self@.len() && name@ == self@.name_at(i as int)
                    && balance@ == self@.balance_at(i as int),
                None => i >= self@.len(),
            },
    {
        proof {
            use_type_invariant(self);
        }
        if i < self.names.len() {
            Some((&self.names[i], &self.balances[i]))
        } else {
            None
        }
    }

    /// The balance of the account named `name`.
    pub fn get(&self, name: &str) -> (r: Option<&Balance>)
        ensures
            match r {
                Some(balance) => self@.has(name@) && balance@ == self@.balance_of(name@),
                None => !self@.has(name@),
            },
    {
        proof {
            use_type_invariant(self);
        }
        match self.position(name) {
            Some(i) => Some(&self.balances[i]),
            None => None,
        }
    }

    /// The balance of the account named `name`, to be changed in place.
    pub fn get_mut(&mut self, name: &str) -> (r: Option<&mut Balance>)
        ensures
            r is Some <==> old(self)@.has(name@),
            r matches Some(balance) ==> balance@ == old(self)@.balance_of(name@),
            r matches Some(balance) ==> final(self)@ == old(self)@.set(name@, final(balance)@),
            r is None ==> final(self)@ == old(self)@,
    {
        proof {
            use_type_invariant(&*self);
        }
        match self.position(name) {
            Some(i) => {
                proof {
                    self@.lemma_slot(name@);
                }
                Some(&mut self.balances[i])
            },
            None => None,
        }
    }

    /// Takes the accounts out and leaves none.
    fn take_parts(&mut self) -> (parts: (Vec<String>, Vec<Balance>))
        ensures
            final(self)@ == Ledger::empty(),
            parts.0.len() == parts.1.len(),
            parts.0.len() == old(self)@.len(),
            forall|i: int|
                0 <= i < parts.0.len() ==> (#[trigger] parts.0[i])@ == old(self)@.name_at(i),
            forall|i: int|
                0 <= i < parts.1.len() ==> (#[trigger] parts.1[i])@ == old(self)@.balance_at(i),
            old(self)@.distinct(),
    {
        proof {
            use_type_invariant(&*self);
        }
        let mut taken = Accounts::new();
        std::mem::swap(&mut taken, self);
        let Accounts { names, balances } = taken;
        (names, balances)
    }

    /// Gives `name` the balance `balance`, in its old place or as a new
    /// account at the end, and returns the balance that `name` had.
    pub fn insert(&mut self, name: String, balance: Balance) -> (previous: Option<Balance>)
        ensures
            final(self)@ == old(self)@.put(name@, balance@),
            match previous {
                Some(b) => old(self)@.has(name@) && b@ == old(self)@.balance_of(name@),
                None => !old(self)@.has(name@),
            },
    {
        match self.position(name.as_str()) {
            Some(i) => {
                proof {
                    use_type_invariant(&*self);
                    self@.lemma_slot(name@);
                }
                let mut balance = balance;
                std::mem::swap(&mut self.balances[i], &mut balance);
                Some(balance)
            },
            None => {
                let (mut names, mut balances) = self.take_parts();
                proof {
                    assert forall|k: int| 0 <= k < names.len() implies names[k]@ != name@ by {}
                }
                names.push(name);
                balances.push(balance);
                *self = Accounts { names, balances };
                None
            },
        }
    }

    /// Removes the account named `name` and returns its balance.
    pub fn remove(&mut self, name: &str) -> (removed: Option<Balance>)
        ensures
            final(self)@ == old(self)@.without(name@),
            !final(self)@.has(name@),
            match removed {
                Some(b) => old(self)@.has(name@) && b@ == old(self)@.balance_of(name@),
                None => !old(self)@.has(name@),
            },
    {
        match self.position(name) {
            Some(i) => {
                proof {
                    self@.lemma_slot(name@);
                }
                let (mut names, mut balances) = self.take_parts();
                let _ = names.remove(i);
                let balance = balances.remove(i);
                proof {
                    old(self)@.lemma_without(name@, name@);
                }
                *self = Accounts { names, balances };
                Some(balance)
            },
            None => None,
        }
    }

    /// The balance of the account named `name`, to be changed in place. If
    /// there is no such account, an empty one is first added at the end.
    pub fn entry_or_default(&mut self, name: String) -> (balance: &mut Balance)
        ensures
            balance@ == old(self)@.opened(name@).balance_of(name@),
            final(self)@ == old(self)@.opened(name@).set(name@, final(balance)@),
    {
        let i = match self.position(name.as_str()) {
            Some(i) => {
                proof {
                    self@.lemma_slot(name@);
                }
                i
            },
            None => {
                let (mut names, mut balances) = self.take_parts();
                proof {
                    assert forall|k: int| 0 <= k < names.len() implies names[k]@ != name@ by {}
                    old(self)@.lemma_push(name@, BalanceView::zero(), name@);
                }
                let i = names.len();
                names.push(name);
                balances.push(Balance::new());
                *self = Accounts { names, balances };
                i
            },
        };
        proof {
            use_type_invariant(&*self);
        }
        &mut self.balances[i]
    }
}

impl Clone for Accounts {
    fn clone(&self) -> (copy: Self)
        ensures
            copy@ == self@,
    {
        proof {
            use_type_invariant(self);
        }
        let mut names: Vec<String> = Vec::new();
        let mut balances: Vec<Balance> = Vec::new();
        let mut i: usize = 0;
        while i < self.names.len()
            invariant
                i <= self.names.len(),
                self.names.len() == self.balances.len(),
                names.len() == i,
                balances.len() == i,
                forall|k: int| 0 <= k < i ==> (#[trigger] names[k])@ == self.names[k]@,
                forall|k: int| 0 <= k < i ==> (#[trigger] balances[k])@ == self.balances[k]@,
            decreases self.names.len() - i,
        {
            names.push(self.names[i].clone());
            balances.push(self.balances[i].clone());
            i += 1;
        }
        let copy = Accounts { names, balances };
        copy
    }
}

} // verus!
