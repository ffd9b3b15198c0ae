//! What the store answers when it cannot do what was asked.

use crate::text::{decimal, decimal_string};
use crate::Name;
use vstd::prelude::*;
use vstd::string::StringExecFns;

verus! {

/// Why the store did not deposit or withdraw.
#[derive(Debug)]
pub enum BalanceManagerError {
    /// There is no account of this name.
    UserNotFound(Name),
    /// The account holds `available`, less than the `required` amount.
    NotEnoughMoney { required: u64, available: u64 },
}

/// What a [`BalanceManagerError`] holds, as mathematical values.
pub enum BalanceManagerErrorView {
    UserNotFound(Seq<char>),
    NotEnoughMoney { required: u64, available: u64 },
}

impl View for BalanceManagerError {
    type V = BalanceManagerErrorView;

    open spec fn view(&self) -> BalanceManagerErrorView {
        match self {
            BalanceManagerError::UserNotFound(name) => BalanceManagerErrorView::UserNotFound(
                name@,
            ),
            BalanceManagerError::NotEnoughMoney { required, available } => {
                BalanceManagerErrorView::NotEnoughMoney {
                    required: *required,
                    available: *available,
                }
            },
        }
    }
}

impl BalanceManagerErrorView {
    /// The error in words.
    pub open spec fn message(self) -> Seq<char> {
        match self {
            BalanceManagerErrorView::UserNotFound(name) => "Пользователь '"@ + name
                + "' не найден"@,
            BalanceManagerErrorView::NotEnoughMoney { required, available } => {
                "Недостаточно средств: требуется "@ + decimal(required as nat) + ", доступно "@
                    + decimal(available as nat)
            },
        }
    }
}

impl BalanceManagerError {
    /// The error in words, for display.
    pub fn message(&self) -> (text: String)
        ensures
            text@ == self@.message(),
    {
        match self {
            BalanceManagerError::UserNotFound(name) => {
                let mut text = String::from_str("Пользователь '");
                text.append(name.as_str());
                text.append("' не найден");
                text
            },
            BalanceManagerError::NotEnoughMoney { required, available } => {
                let mut text = String::from_str("Недостаточно средств: требуется ");
                text.append(decimal_string(*required).as_str());
                text.append(", доступно ");
                text.append(decimal_string(*available).as_str());
                text
            },
        }
    }
}

/// A result of the store, with its error as mathematical values.
pub open spec fn result_view(r: Result<(), BalanceManagerError>) -> Result<
    (),
    BalanceManagerErrorView,
> {
    match r {
        Ok(_) => Ok(()),
        Err(e) => Err(e@),
    }
}

} // verus!
