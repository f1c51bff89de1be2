//! The address sources and their ranking.
//!
//! Each source carries a base priority — the more reliable the source,
//! the higher — and an address's rank adds a completeness bonus, one
//! step per populated field. Ranks are held in tenths so that the
//! priority and the bonus combine in integers: a rank of 34 reads as
//! priority 3, completeness 4.

use vstd::prelude::*;
use crate::address::{Address, NB_FIELDS};

verus! {

/// A source of addresses.
#[derive(Clone, Copy, PartialEq, Eq, Structural, Debug)]
pub enum Source {
    Osm,
    OpenAddress,
    Bano,
}

impl Source {
    /// Base priority of the source, in tenths of a rank step: the
    /// community database ranks above the map extract, which ranks
    /// above the open-data feed.
    pub open spec fn priority_spec(self) -> int {
        match self {
            Source::OpenAddress => 10,
            Source::Osm => 20,
            Source::Bano => 30,
        }
    }

    /// Base priority of the source, in tenths of a rank step.
    pub fn priority(self) -> (r: u64)
        ensures
            r == self.priority_spec(),
    {
        match self {
            Source::OpenAddress => 10,
            Source::Osm => 20,
            Source::Bano => 30,
        }
    }

    /// Rank of an address from this source, in tenths: the source's
    /// priority plus one tenth per populated field. Among duplicates the
    /// higher rank survives.
    pub fn ranking(self, address: &Address) -> (r: u64)
        ensures
            r == self.priority_spec() + address@.count_non_empty_fields(),
            r <= 30 + NB_FIELDS,
    {
        self.priority() + (address.count_non_empty_fields() as u64)
    }
}

} // verus!
