//! The error taxonomy of the platform: every failure an account operation can
//! produce, and the wrappers the surrounding application layers use.

use vstd::prelude::*;

verus! {

/// A failure of an account operation.
#[derive(Clone, PartialEq, Eq, Debug)]
pub enum AccountError {
    /// The operation referenced an account that has never received a deposit.
    NotFound(String),
    /// A deposit or credit would overflow the account's balance.
    OverFunded(String, u64),
    /// A withdrawal or settlement would take the balance below zero.
    UnderFunded(String),
}

/// The mathematical value of an [`AccountError`].
pub enum AccountErrorModel {
    NotFound(Seq<char>),
    OverFunded(Seq<char>, int),
    UnderFunded(Seq<char>),
}

impl View for AccountError {
    type V = AccountErrorModel;

    open spec fn view(&self) -> AccountErrorModel {
        match self {
            AccountError::NotFound(s) => AccountErrorModel::NotFound(s@),
            AccountError::OverFunded(s, a) => AccountErrorModel::OverFunded(s@, *a as int),
            AccountError::UnderFunded(s) => AccountErrorModel::UnderFunded(s@),
        }
    }
}

/// An application-level error wrapper.
#[derive(Clone, PartialEq, Eq, Debug)]
pub enum ApplicationError {
    AccountNotFound(String),
    AccountOverFunded(String, u64),
    AccountUnderFunded(String),
}

/// An [`AccountError`] as carried across the service boundary.
#[derive(Debug)]
pub struct OctopusError(pub AccountError);

} // verus!
