//! Runtime bookkeeping of read-shared and write-exclusive access to byte
//! ranges of memory that a host owns.
//!
//! Native code that is handed pointers into buffers of a managed host cannot
//! have its borrows checked when it is compiled: one region may be reached
//! through several handles. A [`ledger::Ledger`] keeps, for the time of one
//! operation, the ranges that are held shared and those that are held
//! exclusively, and refuses a request that would break exclusivity.
//!
//! - [`range`]: half-open ranges of byte addresses and their overlap.
//! - [`state`]: what a ledger holds, as mathematics, and how requests
//!   change it.
//! - [`ledger`]: the ledger itself, its tokens and its errors.
//! - [`binary`]: the host's buffers and typed arrays as the regions they
//!   occupy, and borrows of them.
//! - [`laws`]: what is proved of every ledger.

pub mod binary;
pub mod laws;
pub mod ledger;
pub mod range;
pub mod state;
