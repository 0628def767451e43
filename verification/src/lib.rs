//! Accounting and redemption settlement for an index fund: a basket of
//! assets goes in, shares come out, and shares are redeemed for a pro-rata
//! slice of the pool through transfers that may each fail on their own.
//!
//! [`TknIndex`] is the fund. [`model`] says in mathematical terms what
//! each of its operations does, and [`laws`] what follows for every
//! history of operations.

pub mod arith;
pub mod error;
pub mod fund;
pub mod gateway;
pub mod laws;
pub mod ledger;
pub mod model;
pub mod oracle;
pub mod pool;
pub mod redemption;
pub mod sums;
pub mod table;

pub use error::Error;
pub use fund::TknIndex;
pub use gateway::{Transfer, TransferOutcome};
pub use ledger::AccountLedger;
pub use oracle::{PriceOracleView, PriceQuote};
pub use pool::AssetPool;
pub use redemption::{LegStatus, RedemptionLeg, RedemptionRequest, RedemptionStatus};
pub use table::Table;
