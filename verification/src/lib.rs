//! Deduplication engine for street addresses gathered from several sources.
//!
//! Addresses are ingested into a working store together with a rank and a set
//! of locality-sensitive fingerprints; addresses sharing a fingerprint are
//! candidate duplicates. A collision-resolution pass walks the fingerprint
//! groups, decides which entries describe the same place, and keeps a single
//! survivor per set of duplicates, preferring the higher rank.

use vstd::prelude::*;

pub mod address;
pub mod db_hashes;
pub mod dedupe;
pub mod deduplicator;
pub mod openaddress;
pub mod sources;
pub mod utils;
