//! Offline recomputation and audit of a Nominated-Proof-of-Stake validator election.
//!
//! - `types`: accounts, balances, voters, the election snapshot and winner records.
//! - `snapshot`: the election-phase check and the assembly of a snapshot from pages.
//! - `assignments`: ratio and staked assignments and their model as support edges.
//! - `npos`: the calls into `sp_npos_elections` (sequential Phragmen, conversions,
//!   reduction), each result named.
//! - `election`: the election pipeline and the per-winner view of its result.
//! - `exposures`: per-validator exposures built from staked assignments.
//! - `conservation`: report-only checks that stake is conserved.
//! - `nominators`: nominator-centric views of exposures.
//! - `codec`: decoding of a stored validator set.
//! - `compare`: set differences against chain ground truth.

pub mod assignments;
pub mod codec;
pub mod compare;
pub mod conservation;
pub mod election;
pub mod exposures;
pub mod nominators;
pub mod npos;
pub mod snapshot;
pub mod types;
