//! Why an operation on the fund was turned down.

use vstd::prelude::*;

verus! {

#[derive(Clone, Copy, Debug, PartialEq, Eq, Structural)]
pub enum Error {
    /// A deposit basket was empty or held an amount of zero.
    InvalidDeposit,
    /// More shares were asked for than the account holds.
    InsufficientBalance,
    /// A redemption would promise more of an asset than is free to promise.
    PoolContention,
    /// A payout leg did not go through. The fund makes up for it by
    /// crediting shares, so no operation of the fund returns this; it is
    /// what a failed leg answers when asked what went wrong.
    LegTransferFailed,
    /// A quantity would not fit in 128 bits (or a request number in 64).
    ArithmeticOverflow,
}

pub open spec fn error_text(e: Error) -> Seq<char> {
    match e {
        Error::InvalidDeposit => "Invalid deposit"@,
        Error::InsufficientBalance => "Insufficient balance"@,
        Error::PoolContention => "Pool contention"@,
        Error::LegTransferFailed => "Leg transfer failed"@,
        Error::ArithmeticOverflow => "Arithmetic overflow"@,
    }
}

impl Error {
    /// A short text for people.
    pub fn message(&self) -> (text: &'static str)
        ensures
            text@ == error_text(*self),
    {
        match self {
            Error::InvalidDeposit => "Invalid deposit",
            Error::InsufficientBalance => "Insufficient balance",
            Error::PoolContention => "Pool contention",
            Error::LegTransferFailed => "Leg transfer failed",
            Error::ArithmeticOverflow => "Arithmetic overflow",
        }
    }
}

} // verus!
