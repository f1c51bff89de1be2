//! The working store of addresses, fingerprints and deletion markers.
//!
//! The store keeps the three logical tables of the construction phase:
//! stored addresses `(id, address, rank)` with auto-assigned increasing
//! ids and a uniqueness constraint on the natural key, fingerprint
//! entries `(address id, fingerprint)` unique as pairs, and the set of
//! ids marked for deletion. Constraint violations are reported, never
//! applied: re-inserting a record already present leaves the store
//! unchanged, which is what makes bulk re-ingest idempotent.

use vstd::prelude::*;
use crate::address::{Address, AddressV};
use crate::utils::part_lo;

verus! {

/// A stored address: the record, its caller-assigned rank, and the id the
/// store gave it.
pub struct StoredAddress {
    pub id: i64,
    pub address: Address,
    pub rank: i64,
}

/// Mathematical value of a stored address.
pub ghost struct StoredAddressV {
    pub id: i64,
    pub address: AddressV,
    pub rank: i64,
}

impl View for StoredAddress {
    type V = StoredAddressV;

    open spec fn view(&self) -> StoredAddressV {
        StoredAddressV { id: self.id, address: self.address@, rank: self.rank }
    }
}

/// An address together with one of its fingerprints, as yielded by the
/// collision scan.
pub struct HashIterItem {
    pub address: Address,
    pub hash: i64,
    pub id: i64,
    pub rank: i64,
}

/// Mathematical value of a collision row.
pub ghost struct HashIterItemV {
    pub address: AddressV,
    pub hash: i64,
    pub id: i64,
    pub rank: i64,
}

impl View for HashIterItem {
    type V = HashIterItemV;

    open spec fn view(&self) -> HashIterItemV {
        HashIterItemV { address: self.address@, hash: self.hash, id: self.id, rank: self.rank }
    }
}

/// Errors of the store. A constraint violation means the inserted value
/// was already present; callers treat it as "nothing to do".
#[derive(Clone, Copy, PartialEq, Eq, Structural, Debug)]
pub enum StoreError {
    ConstraintViolation,
}

impl StoreError {
    /// Whether the error is a uniqueness-constraint violation, the
    /// expected and harmless outcome of re-inserting a present value.
    pub fn is_constraint_violation(&self) -> (r: bool)
        ensures
            r == (*self == StoreError::ConstraintViolation),
    {
        match self {
            StoreError::ConstraintViolation => true,
        }
    }
}

/// Mathematical value of the store.
pub ghost struct DbHashesV {
    pub addresses: Seq<StoredAddressV>,
    pub hashes: Seq<(i64, i64)>,
    pub to_delete: Set<i64>,
    pub next_id: i64,
}

impl DbHashesV {
    /// Whether some stored address carries id `id`.
    pub open spec fn has_id(self, id: i64) -> bool {
        exists|i: int| 0 <= i < self.addresses.len() && self.addresses[i].id == id
    }

    /// Whether some stored address carries the given natural key.
    pub open spec fn has_key(
        self,
        key: (i64, i64, Option<Seq<u8>>, Option<Seq<u8>>, Option<Seq<u8>>),
    ) -> bool {
        exists|i: int|
            0 <= i < self.addresses.len() && self.addresses[i].address.natural_key() == key
    }

    /// Invariant of the store: ids are strictly increasing and below the
    /// next free id, natural keys are unique, and fingerprint entries
    /// are unique pairs. An entry's id need not exist: deleting an
    /// address leaves its entries dangling until `cleanup_database`, and
    /// the collision scan joins them away.
    pub open spec fn inv(self) -> bool {
        &&& forall|i: int, j: int|
            0 <= i < j < self.addresses.len() ==> self.addresses[i].id < self.addresses[j].id
        &&& forall|i: int|
            0 <= i < self.addresses.len() ==> 0 < (#[trigger] self.addresses[i]).id < self.next_id
        &&& forall|i: int, j: int|
            0 <= i < j < self.addresses.len() ==> self.addresses[i].address.natural_key()
                != self.addresses[j].address.natural_key()
        &&& forall|i: int, j: int|
            0 <= i < j < self.hashes.len() ==> self.hashes[i] != self.hashes[j]
        &&& 0 < self.next_id
    }

    /// The addresses that survive once the deletion markers are applied.
    pub open spec fn surviving(self) -> Seq<AddressV> {
        self.addresses.filter(|sa: StoredAddressV| !self.to_delete.contains(sa.id)).map_values(
            |sa: StoredAddressV| sa.address,
        )
    }
}

/// The working store.
pub struct DbHashes {
    addresses: Vec<StoredAddress>,
    hashes: Vec<(i64, i64)>,
    to_delete: Vec<i64>,
    next_id: i64,
}

impl View for DbHashes {
    type V = DbHashesV;

    closed spec fn view(&self) -> DbHashesV {
        DbHashesV {
            addresses: self.addresses@.map_values(|sa: StoredAddress| sa@),
            hashes: self.hashes@,
            to_delete: self.to_delete@.to_set(),
            next_id: self.next_id,
        }
    }
}

impl DbHashes {
    /// Well-formedness: the mathematical invariant, plus uniqueness of the
    /// deletion-marker list backing the marker set.
    pub closed spec fn wf(self) -> bool {
        &&& self@.inv()
        &&& self.to_delete@.no_duplicates()
    }

    /// A well-formed store satisfies the mathematical invariant of its value.
    pub proof fn lemma_wf_inv(self)
        requires
            self.wf(),
        ensures
            self@.inv(),
    {
    }

    /// An empty store.
    pub fn new() -> (r: DbHashes)
        ensures
            r.wf(),
            r@.addresses == Seq::<StoredAddressV>::empty(),
            r@.hashes == Seq::<(i64, i64)>::empty(),
            r@.to_delete == Set::<i64>::empty(),
            r@.next_id == 1,
    {
        let r = DbHashes { addresses: Vec::new(), hashes: Vec::new(), to_delete: Vec::new(), next_id: 1 };
        proof {
            assert(r@.addresses =~= Seq::<StoredAddressV>::empty());
            assert(r@.to_delete =~= Set::<i64>::empty());
        }
        r
    }

    /// Index of the stored address with the given natural key, if any.
    fn find_by_key(&self, address: &Address) -> (r: Option<usize>)
        ensures
            match r {
                Some(i) => i < self@.addresses.len() && self@.addresses[i as int].address.natural_key()
                    == address@.natural_key(),
                None => !self@.has_key(address@.natural_key()),
            },
    {
        let n = self.addresses.len();
        for i in 0..n
            invariant
                n == self.addresses.len(),
                self@.addresses.len() == n,
                forall|j: int|
                    0 <= j < i ==> (#[trigger] self@.addresses[j]).address.natural_key()
                        != address@.natural_key(),
        {
            if self.addresses[i].address.same_natural_key(address) {
                return Some(i);
            }
        }
        None
    }

    /// Index of the stored address with the given id, if any.
    fn find_by_id(&self, id: i64) -> (r: Option<usize>)
        ensures
            match r {
                Some(i) => i < self@.addresses.len() && self@.addresses[i as int].id == id,
                None => !self@.has_id(id),
            },
    {
        let n = self.addresses.len();
        for i in 0..n
            invariant
                n == self.addresses.len(),
                self@.addresses.len() == n,
                forall|j: int| 0 <= j < i ==> (#[trigger] self@.addresses[j]).id != id,
        {
            if self.addresses[i].id == id {
                return Some(i);
            }
        }
        None
    }

    /// Whether a fingerprint entry is already present.
    fn has_hash_entry(&self, address_id: i64, address_hash: i64) -> (r: bool)
        ensures
            r == self@.hashes.contains((address_id, address_hash)),
    {
        let n = self.hashes.len();
        for i in 0..n
            invariant
                n == self@.hashes.len(),
                forall|j: int| 0 <= j < i ==> self@.hashes[j] != (address_id, address_hash),
        {
            let (id, h) = self.hashes[i];
            if id == address_id && h == address_hash {
                assert(self@.hashes[i as int] == (address_id, address_hash));
                return true;
            }
        }
        false
    }

    /// Insert an address with its rank. The store assigns the next id and
    /// returns it; a record whose natural key is already present is
    /// refused with a constraint violation and the store is unchanged.
    pub fn insert_address(&mut self, address: &Address, rank: i64) -> (r: Result<i64, StoreError>)
        requires
            old(self).wf(),
            old(self)@.next_id < i64::MAX,
        ensures
            final(self).wf(),
            match r {
                Ok(id) => {
                    &&& !old(self)@.has_key(address@.natural_key())
                    &&& id == old(self)@.next_id
                    &&& final(self)@.addresses == old(self)@.addresses.push(
                        StoredAddressV { id, address: address@, rank },
                    )
                    &&& final(self)@.hashes == old(self)@.hashes
                    &&& final(self)@.to_delete == old(self)@.to_delete
                    &&& final(self)@.next_id == old(self)@.next_id + 1
                },
                Err(e) => {
                    &&& e == StoreError::ConstraintViolation
                    &&& old(self)@.has_key(address@.natural_key())
                    &&& final(self)@ == old(self)@
                },
            },
    {
        match self.find_by_key(address) {
            Some(_) => Err(StoreError::ConstraintViolation),
            None => {
                let id = self.next_id;
                self.addresses.push(StoredAddress { id, address: address.clone(), rank });
                self.next_id = id + 1;
                proof {
                    assert(self@.addresses =~= old(self)@.addresses.push(
                        StoredAddressV { id, address: address@, rank },
                    ));
                    let v = self@;
                    let o = old(self)@;
                    assert(v.hashes == o.hashes);
                    assert forall|i: int, j: int| 0 <= i < j < v.hashes.len() implies v.hashes[i]
                        != v.hashes[j] by {
                        assert(o.hashes[i] != o.hashes[j]);
                    }
                    assert forall|i: int, j: int|
                        0 <= i < j < v.addresses.len() implies v.addresses[i].id
                        < v.addresses[j].id by {
                        if j == v.addresses.len() - 1 {
                            assert(v.addresses[j].id == id);
                            assert(o.addresses[i].id < o.next_id);
                        }
                    }
                    assert forall|i: int, j: int|
                        0 <= i < j < v.addresses.len() implies v.addresses[i].address.natural_key()
                        != v.addresses[j].address.natural_key() by {
                        if j == v.addresses.len() - 1 {
                            if v.addresses[i].address.natural_key() == address@.natural_key() {
                                assert(o.addresses[i].address.natural_key()
                                    == address@.natural_key());
                                assert(o.has_key(address@.natural_key()));
                            }
                        }
                    }
                }
                Ok(id)
            },
        }
    }

    /// Insert a fingerprint entry for a stored address. A pair already
    /// present, or an id the store does not know, is refused with a
    /// constraint violation and the store is unchanged.
    pub fn insert_hash(&mut self, address_id: i64, address_hash: i64) -> (r: Result<
        (),
        StoreError,
    >)
        requires
            old(self).wf(),
        ensures
            final(self).wf(),
            match r {
                Ok(()) => {
                    &&& !old(self)@.hashes.contains((address_id, address_hash))
                    &&& old(self)@.has_id(address_id)
                    &&& final(self)@.addresses == old(self)@.addresses
                    &&& final(self)@.hashes == old(self)@.hashes.push((address_id, address_hash))
                    &&& final(self)@.to_delete == old(self)@.to_delete
                    &&& final(self)@.next_id == old(self)@.next_id
                },
                Err(e) => {
                    &&& e == StoreError::ConstraintViolation
                    &&& old(self)@.hashes.contains((address_id, address_hash)) || !old(
                        self,
                    )@.has_id(address_id)
                    &&& final(self)@ == old(self)@
                },
            },
    {
        if self.has_hash_entry(address_id, address_hash) {
            return Err(StoreError::ConstraintViolation);
        }
        match self.find_by_id(address_id) {
            None => Err(StoreError::ConstraintViolation),
            Some(_) => {
                self.hashes.push((address_id, address_hash));
                proof {
                    let v = self@;
                    let o = old(self)@;
                    assert forall|i: int, j: int| 0 <= i < j < v.hashes.len() implies v.hashes[i]
                        != v.hashes[j] by {
                        if j < o.hashes.len() {
                        } else {
                            assert(v.hashes[j] == (address_id, address_hash));
                            if v.hashes[i] == (address_id, address_hash) {
                                assert(o.hashes[i] == (address_id, address_hash));
                                assert(o.hashes.contains((address_id, address_hash)));
                            }
                        }
                    }
                }
                Ok(())
            },
        }
    }

    /// Number of stored addresses.
    pub fn count_addresses(&self) -> (r: usize)
        ensures
            r == self@.addresses.len(),
    {
        self.addresses.len()
    }

    /// Number of fingerprint entries.
    pub fn count_hashes(&self) -> (r: usize)
        ensures
            r == self@.hashes.len(),
    {
        self.hashes.len()
    }

    /// Number of addresses marked for deletion.
    pub fn count_to_delete(&self) -> (r: usize)
        requires
            self.wf(),
        ensures
            r == self@.to_delete.len(),
    {
        proof {
            self.to_delete@.unique_seq_to_set();
        }
        self.to_delete.len()
    }

    /// Mark ids for deletion. Ids already marked stay marked once.
    pub fn insert_to_delete(&mut self, ids: &Vec<i64>) -> (count: usize)
        requires
            old(self).wf(),
        ensures
            final(self).wf(),
            final(self)@.to_delete == old(self)@.to_delete.union(ids@.to_set()),
            final(self)@.addresses == old(self)@.addresses,
            final(self)@.hashes == old(self)@.hashes,
            final(self)@.next_id == old(self)@.next_id,
            count == final(self)@.to_delete.len(),
    {
        let n = ids.len();
        for i in 0..n
            invariant
                self.wf(),
                n == ids@.len(),
                self@.to_delete == old(self)@.to_delete.union(ids@.take(i as int).to_set()),
                self@.addresses == old(self)@.addresses,
                self@.hashes == old(self)@.hashes,
                self@.next_id == old(self)@.next_id,
        {
            let id = ids[i];
            let present = self.is_marked(id);
            proof {
                assert(ids@.take(i + 1).drop_last() =~= ids@.take(i as int));
                assert(ids@.take(i + 1).last() == ids@[i as int]);
            }
            if !present {
                let ghost old_seq = self.to_delete@;
                self.to_delete.push(id);
                proof {
                    assert forall|a: int, b: int|
                        0 <= a < b < self.to_delete@.len() implies self.to_delete@[a]
                        != self.to_delete@[b] by {
                        if b == self.to_delete@.len() - 1 {
                            assert(self.to_delete@[b] == id);
                            if self.to_delete@[a] == id {
                                assert(old_seq.contains(id));
                            }
                        }
                    }
                    let s1 = ids@.take(i + 1);
                    let s0 = ids@.take(i as int);
                    assert(s1 =~= s0.push(id));
                    assert forall|x: i64| s1.to_set().contains(x) implies s0.to_set().contains(x)
                        || x == id by {
                        let k = choose|k: int| 0 <= k < s1.len() && s1[k] == x;
                        if k < s0.len() {
                            assert(s0[k] == x);
                        }
                    }
                    assert forall|x: i64| s0.to_set().contains(x) implies s1.to_set().contains(
                        x,
                    ) by {
                        let k = choose|k: int| 0 <= k < s0.len() && s0[k] == x;
                        assert(s1[k] == x);
                    }
                    assert forall|x: i64| self.to_delete@.to_set().contains(x) implies old_seq.to_set().contains(x)
                        || x == id by {
                        let k = choose|k: int| 0 <= k < self.to_delete@.len() && self.to_delete@[k] == x;
                        if k < old_seq.len() {
                            assert(old_seq[k] == x);
                        }
                    }
                    assert forall|x: i64| old_seq.to_set().contains(x) implies self.to_delete@.to_set().contains(
                        x,
                    ) by {
                        let k = choose|k: int| 0 <= k < old_seq.len() && old_seq[k] == x;
                        assert(self.to_delete@[k] == x);
                    }
                    assert(self.to_delete@.contains(id)) by {
                        assert(self.to_delete@[self.to_delete@.len() - 1] == id);
                    }
                    assert(old_seq.to_set() == old(self)@.to_delete.union(s0.to_set()));
                    assert forall|x: i64| self@.to_delete.contains(x) implies old(
                        self,
                    )@.to_delete.union(s1.to_set()).contains(x) by {
                        assert(self.to_delete@.to_set().contains(x));
                        assert(old_seq.to_set().contains(x) || x == id);
                    }
                    assert forall|x: i64| old(self)@.to_delete.union(s1.to_set()).contains(
                        x,
                    ) implies self@.to_delete.contains(x) by {
                        if old(self)@.to_delete.contains(x) || s0.to_set().contains(x) {
                            assert(old_seq.to_set().contains(x));
                        } else {
                            assert(x == id);
                        }
                        assert(self.to_delete@.to_set().contains(x));
                    }
                    assert(self@.to_delete =~= old(self)@.to_delete.union(s1.to_set()));
                }
            } else {
                proof {
                    let s1 = ids@.take(i + 1);
                    let s0 = ids@.take(i as int);
                    assert(s1 =~= s0.push(id));
                    assert(self@.to_delete.contains(id));
                    assert forall|x: i64| s1.to_set().contains(x) implies s0.to_set().contains(x)
                        || x == id by {
                        let k = choose|k: int| 0 <= k < s1.len() && s1[k] == x;
                        if k < s0.len() {
                            assert(s0[k] == x);
                        }
                    }
                    assert forall|x: i64| s0.to_set().contains(x) implies s1.to_set().contains(
                        x,
                    ) by {
                        let k = choose|k: int| 0 <= k < s0.len() && s0[k] == x;
                        assert(s1[k] == x);
                    }
                    assert(self@.to_delete =~= old(self)@.to_delete.union(s1.to_set()));
                }
            }
        }
        proof {
            assert(ids@.take(n as int) =~= ids@);
            self.to_delete@.unique_seq_to_set();
        }
        self.to_delete.len()
    }

    /// Remove the marked addresses from the store, returning how many
    /// rows were removed. Only the address table changes: the markers,
    /// and the fingerprint entries of the removed addresses, stay until
    /// `cleanup_database`.
    pub fn apply_addresses_to_delete(&mut self) -> (removed: usize)
        requires
            old(self).wf(),
        ensures
            final(self).wf(),
            final(self)@.addresses == old(self)@.addresses.filter(
                |sa: StoredAddressV| !old(self)@.to_delete.contains(sa.id),
            ),
            final(self)@.hashes == old(self)@.hashes,
            final(self)@.to_delete == old(self)@.to_delete,
            final(self)@.next_id == old(self)@.next_id,
            removed == old(self)@.addresses.len() - final(self)@.addresses.len(),
    {
        let old_len = self.addresses.len();
        let mut kept: Vec<StoredAddress> = Vec::new();
        let n = self.addresses.len();
        for i in 0..n
            invariant
                old(self).wf(),
                n == self.addresses.len(),
                self.addresses@ == old(self).addresses@,
                self.hashes@ == old(self).hashes@,
                self.to_delete@ == old(self).to_delete@,
                kept@.map_values(|sa: StoredAddress| sa@) =~= old(self)@.addresses.take(
                    i as int,
                ).filter(|sa: StoredAddressV| !old(self)@.to_delete.contains(sa.id)),
        {
            proof {
                assert(old(self)@.addresses.take(i + 1).drop_last() =~= old(self)@.addresses.take(
                    i as int,
                ));
                assert(old(self)@.addresses.take(i + 1).last() == old(self)@.addresses[i as int]);
                reveal(Seq::filter);
            }
            let marked = self.is_marked(self.addresses[i].id);
            if !marked {
                let sa = &self.addresses[i];
                kept.push(StoredAddress { id: sa.id, address: sa.address.clone(), rank: sa.rank });
            }
        }
        proof {
            assert(old(self)@.addresses.take(n as int) =~= old(self)@.addresses);
        }
        proof {
            let o = old(self)@;
            let p = |sa: StoredAddressV| !o.to_delete.contains(sa.id);
            o.addresses.lemma_filter_len(p);
            assert(kept@.map_values(|sa: StoredAddress| sa@).len() == kept@.len());
        }
        let removed = old_len - kept.len();
        self.addresses = kept;
        proof {
            lemma_filter_keeps_invariants(old(self)@, self@);
        }
        removed
    }

    /// Whether an id is marked for deletion.
    fn is_marked(&self, id: i64) -> (r: bool)
        ensures
            r == self@.to_delete.contains(id),
    {
        contains_id(&self.to_delete, id)
    }

    /// Drop the construction tables, once resolution is done: the
    /// fingerprint entries and the deletion markers. Only the addresses
    /// remain.
    pub fn cleanup_database(&mut self)
        requires
            old(self).wf(),
        ensures
            final(self).wf(),
            final(self)@.addresses == old(self)@.addresses,
            final(self)@.hashes == Seq::<(i64, i64)>::empty(),
            final(self)@.to_delete == Set::<i64>::empty(),
            final(self)@.next_id == old(self)@.next_id,
    {
        self.hashes = Vec::new();
        self.to_delete = Vec::new();
        proof {
            assert(self@.hashes =~= Seq::<(i64, i64)>::empty());
            assert(self@.to_delete =~= Set::<i64>::empty());
        }
    }

    /// The surviving addresses: every stored address not marked for
    /// deletion, in storage order.
    pub fn get_addresses(&self) -> (r: Vec<Address>)
        requires
            self.wf(),
        ensures
            r@.map_values(|a: Address| a@) == self@.surviving(),
    {
        addresses_not_marked(&self.addresses, &self.to_delete)
    }

    /// The stored addresses carrying the given house number and street.
    pub fn get_addresses_by_street(&self, number: &Vec<u8>, street: &Vec<u8>) -> (r: Vec<Address>)
        requires
            self.wf(),
        ensures
            r@.map_values(|a: Address| a@) == self@.addresses.filter(
                |sa: StoredAddressV| sa.address.number == Some(number@) && sa.address.street
                    == Some(street@),
            ).map_values(|sa: StoredAddressV| sa.address),
    {
        addresses_with_number_street(&self.addresses, number, street)
    }
}

/// Filtering the address table preserves the store invariant; the
/// fingerprint entries are untouched and may now dangle.
proof fn lemma_filter_keeps_invariants(o: DbHashesV, v: DbHashesV)
    requires
        o.inv(),
        v.addresses == o.addresses.filter(|sa: StoredAddressV| !o.to_delete.contains(sa.id)),
        v.hashes == o.hashes,
        v.next_id == o.next_id,
    ensures
        v.inv(),
{
    broadcast use vstd::seq_lib::group_filter_ensures;

    let p = |sa: StoredAddressV| !o.to_delete.contains(sa.id);
    assert forall|i: int, j: int| 0 <= i < j < v.addresses.len() implies v.addresses[i].id
        < v.addresses[j].id by {
        lemma_filter_index_mono(o.addresses, p, i, j);
    }
    assert forall|i: int, j: int| 0 <= i < j < v.addresses.len() implies v.addresses[
        i
    ].address.natural_key() != v.addresses[j].address.natural_key() by {
        lemma_filter_index_mono(o.addresses, p, i, j);
    }
    assert forall|i: int| 0 <= i < v.addresses.len() implies 0 < (
    #[trigger] v.addresses[i]).id < v.next_id by {
        assert(o.addresses.contains(v.addresses[i])) by {
            lemma_filter_index_mono(o.addresses, p, i, i);
        }
        let k = choose|k: int| 0 <= k < o.addresses.len() && o.addresses[k] == v.addresses[i];
    }
}

/// The filtered sequence draws its elements from increasing indexes of
/// the filtered-from sequence: filtering keeps the order.
pub(crate) proof fn lemma_filter_index_mono<A>(s: Seq<A>, p: spec_fn(A) -> bool, i: int, j: int)
    requires
        0 <= i <= j < s.filter(p).len(),
    ensures
        exists|a: int, b: int|
            0 <= a <= b < s.len() && (i < j ==> a < b) && s[a] == s.filter(p)[i] && s[b]
                == s.filter(p)[j],
    decreases s.len(),
{
    reveal(Seq::filter);
    if s.len() > 0 {
        let rest = s.drop_last();
        let f = s.filter(p);
        let fr = rest.filter(p);
        if p(s.last()) {
            if j == f.len() - 1 {
                if i == j {
                    let a = s.len() - 1;
                    assert(s[a] == f[i] && s[a] == f[j]);
                } else {
                    lemma_filter_index_same(rest, p, i);
                    let a = choose|a: int| 0 <= a < rest.len() && rest[a] == fr[i];
                    let b = s.len() - 1;
                    assert(s[a] == f[i] && s[b] == f[j]);
                }
            } else {
                lemma_filter_index_mono(rest, p, i, j);
                let (a, b) = choose|a: int, b: int|
                    0 <= a <= b < rest.len() && (i < j ==> a < b) && rest[a] == fr[i] && rest[b]
                        == fr[j];
                assert(s[a] == f[i] && s[b] == f[j]);
            }
        } else {
            lemma_filter_index_mono(rest, p, i, j);
            let (a, b) = choose|a: int, b: int|
                0 <= a <= b < rest.len() && (i < j ==> a < b) && rest[a] == fr[i] && rest[b]
                    == fr[j];
            assert(s[a] == f[i] && s[b] == f[j]);
        }
    }
}

/// Each filtered element is drawn from some index of the original.
pub(crate) proof fn lemma_filter_index_same<A>(s: Seq<A>, p: spec_fn(A) -> bool, i: int)
    requires
        0 <= i < s.filter(p).len(),
    ensures
        exists|a: int| 0 <= a < s.len() && s[a] == s.filter(p)[i],
    decreases s.len(),
{
    reveal(Seq::filter);
    if s.len() > 0 {
        let rest = s.drop_last();
        if p(s.last()) && i == s.filter(p).len() - 1 {
            let a = s.len() - 1;
            assert(s[a] == s.filter(p)[i]);
        } else {
            lemma_filter_index_same(rest, p, i);
            let a = choose|a: int| 0 <= a < rest.len() && rest[a] == rest.filter(p)[i];
            assert(s[a] == s.filter(p)[i]);
        }
    }
}


/// Whether a list of ids contains `id`.
fn contains_id(ids: &Vec<i64>, id: i64) -> (r: bool)
    ensures
        r == ids@.to_set().contains(id),
{
    let m = ids.len();
    for k in 0..m
        invariant
            m == ids@.len(),
            forall|t: int| 0 <= t < k ==> ids@[t] != id,
    {
        if ids[k] == id {
            proof {
                assert(ids@.contains(id));
            }
            return true;
        }
    }
    false
}

/// The addresses of the stored entries whose id is not marked, in order.
fn addresses_not_marked(addrs: &Vec<StoredAddress>, marks: &Vec<i64>) -> (r: Vec<Address>)
    ensures
        r@.map_values(|a: Address| a@) == addrs@.map_values(|sa: StoredAddress| sa@).filter(
            |sa: StoredAddressV| !marks@.to_set().contains(sa.id),
        ).map_values(|sa: StoredAddressV| sa.address),
{
    let ghost v0 = addrs@.map_values(|sa: StoredAddress| sa@);
    let ghost m0 = marks@.to_set();
    let mut r: Vec<Address> = Vec::new();
    let n = addrs.len();
    for i in 0..n
        invariant
            v0 == addrs@.map_values(|sa: StoredAddress| sa@),
            m0 == marks@.to_set(),
            n == addrs@.len(),
            r@.map_values(|a: Address| a@) =~= v0.take(i as int).filter(
                |sa: StoredAddressV| !m0.contains(sa.id),
            ).map_values(|sa: StoredAddressV| sa.address),
    {
        let marked = contains_id(marks, addrs[i].id);
        proof {
            reveal(Seq::filter);
            let p = |sa: StoredAddressV| !m0.contains(sa.id);
            let q = |sa: StoredAddressV| sa.address;
            assert(v0.take(i + 1).drop_last() =~= v0.take(i as int));
            assert(v0.take(i + 1).last() == v0[i as int]);
            if marked {
                assert(v0.take(i + 1).filter(p) == v0.take(i as int).filter(p));
            } else {
                assert(v0.take(i + 1).filter(p) == v0.take(i as int).filter(p).push(v0[i as int]));
                assert(v0.take(i + 1).filter(p).map_values(q) =~= v0.take(i as int).filter(
                    p,
                ).map_values(q).push(v0[i as int].address));
            }
        }
        if !marked {
            let c = addrs[i].address.clone();
            proof {
                assert(c@ == v0[i as int].address);
            }
            r.push(c);
        }
    }
    proof {
        assert(v0.take(n as int) =~= v0);
    }
    r
}

/// The addresses of the stored entries whose house number and street equal
/// the given bytes, in order.
fn addresses_with_number_street(
    addrs: &Vec<StoredAddress>,
    number: &Vec<u8>,
    street: &Vec<u8>,
) -> (r: Vec<Address>)
    ensures
        r@.map_values(|a: Address| a@) == addrs@.map_values(|sa: StoredAddress| sa@).filter(
            |sa: StoredAddressV| sa.address.number == Some(number@) && sa.address.street == Some(
                street@,
            ),
        ).map_values(|sa: StoredAddressV| sa.address),
{
    let ghost v0 = addrs@.map_values(|sa: StoredAddress| sa@);
    let ghost nb = number@;
    let ghost sb = street@;
    let mut r: Vec<Address> = Vec::new();
    let n = addrs.len();
    for i in 0..n
        invariant
            v0 == addrs@.map_values(|sa: StoredAddress| sa@),
            nb == number@,
            sb == street@,
            n == addrs@.len(),
            r@.map_values(|a: Address| a@) =~= v0.take(i as int).filter(
                |sa: StoredAddressV| sa.address.number == Some(nb) && sa.address.street == Some(
                    sb,
                ),
            ).map_values(|sa: StoredAddressV| sa.address),
    {
        let sa = &addrs[i];
        let number_matches = match &sa.address.number {
            Some(x) => crate::address::bytes_eq(x, number),
            None => false,
        };
        let street_matches = match &sa.address.street {
            Some(x) => crate::address::bytes_eq(x, street),
            None => false,
        };
        proof {
            reveal(Seq::filter);
            let p = |sa: StoredAddressV| sa.address.number == Some(nb) && sa.address.street
                == Some(sb);
            let q = |sa: StoredAddressV| sa.address;
            assert(v0.take(i + 1).drop_last() =~= v0.take(i as int));
            assert(v0.take(i + 1).last() == v0[i as int]);
            if number_matches && street_matches {
                assert(v0.take(i + 1).filter(p) == v0.take(i as int).filter(p).push(
                    v0[i as int],
                ));
                assert(v0.take(i + 1).filter(p).map_values(q) =~= v0.take(i as int).filter(
                    p,
                ).map_values(q).push(v0[i as int].address));
            } else {
                assert(v0.take(i + 1).filter(p) == v0.take(i as int).filter(p));
            }
        }
        if number_matches && street_matches {
            let c = addrs[i].address.clone();
            proof {
                assert(c@ == v0[i as int].address);
            }
            r.push(c);
        }
    }
    proof {
        assert(v0.take(n as int) =~= v0);
    }
    r
}



/// Ordering of fingerprint entries: by fingerprint value, then by id.
pub open spec fn pair_le(a: (i64, i64), b: (i64, i64)) -> bool {
    a.1 < b.1 || (a.1 == b.1 && a.0 <= b.0)
}

/// The entry ordering as a function value, shared by specs and proofs.
pub open spec fn pair_le_fn() -> spec_fn((i64, i64), (i64, i64)) -> bool {
    |a: (i64, i64), b: (i64, i64)| pair_le(a, b)
}

/// The entry ordering is a total order.
pub proof fn lemma_pair_le_total()
    ensures
        vstd::relations::total_ordering(pair_le_fn()),
{
}

/// Exec comparison of fingerprint entries.
fn pair_le_exec(a: (i64, i64), b: (i64, i64)) -> (r: bool)
    ensures
        r == pair_le(a, b),
{
    a.1 < b.1 || (a.1 == b.1 && a.0 <= b.0)
}

/// Sort fingerprint entries by fingerprint value, then id.
pub(crate) fn sort_pairs(input: Vec<(i64, i64)>) -> (r: Vec<(i64, i64)>)
    ensures
        r@ == input@.sort_by(pair_le_fn()),
{
    let ghost input0 = input@;
    let mut rem = input;
    let mut out: Vec<(i64, i64)> = Vec::new();
    proof {
        broadcast use vstd::seq_lib::group_to_multiset_ensures;
        broadcast use vstd::multiset::group_multiset_axioms;

        assert(out@.to_multiset() =~= vstd::multiset::Multiset::empty()) by {
            assert(out@.to_multiset().len() == 0);
        }
        assert(out@.to_multiset().add(rem@.to_multiset()) =~= input0.to_multiset());
    }
    while rem.len() > 0
        invariant
            out@.to_multiset().add(rem@.to_multiset()) == input0.to_multiset(),
            vstd::relations::sorted_by(out@, pair_le_fn()),
            forall|i: int, j: int|
                0 <= i < out@.len() && 0 <= j < rem@.len() ==> pair_le(out@[i], rem@[j]),
        decreases rem.len(),
    {
        let k = rem.len();
        let mut m: usize = 0;
        for t in 1..k
            invariant
                m < t <= k,
                k == rem@.len(),
                forall|u: int| 0 <= u < t ==> pair_le(rem@[m as int], rem@[u]),
        {
            if !pair_le_exec(rem[m], rem[t]) {
                m = t;
            }
        }
        let ghost rem0 = rem@;
        let x = rem.remove(m);
        let ghost out0 = out@;
        out.push(x);
        proof {
            broadcast use vstd::seq_lib::group_to_multiset_ensures;
            broadcast use vstd::multiset::group_multiset_axioms;

            assert(rem@ == rem0.remove(m as int));
            assert(x == rem0[m as int]);
            assert(rem0.remove(m as int).to_multiset() =~= rem0.to_multiset().remove(
                rem0[m as int],
            ));
            assert(out@ == out0.push(x));
            assert(out0.push(x).to_multiset() =~= out0.to_multiset().insert(x));
            assert(rem@.to_multiset() =~= rem0.to_multiset().remove(x));
            assert(out@.to_multiset() =~= out0.to_multiset().insert(x));
            assert(rem0.to_multiset().contains(x)) by {
                assert(rem0.contains(x)) by {
                    assert(rem0[m as int] == x);
                }
            }
            assert(out@.to_multiset().add(rem@.to_multiset()) =~= out0.to_multiset().add(
                rem0.to_multiset(),
            ));
            assert forall|i: int, j: int|
                0 <= i < j < out@.len() implies pair_le_fn()(out@[i], out@[j]) by {
                if j == out@.len() - 1 {
                    assert(out@[j] == x);
                    assert(pair_le(out0[i], rem0[m as int]));
                }
            }
            assert forall|i: int, j: int|
                0 <= i < out@.len() && 0 <= j < rem@.len() implies pair_le(out@[i], rem@[j]) by {
                assert(rem@ == rem0.remove(m as int));
                let j0 = if j < m { j } else { j + 1 };
                assert(rem@[j] == rem0[j0]);
                if i < out0.len() {
                    assert(pair_le(out0[i], rem0[j0]));
                } else {
                    assert(out@[i] == rem0[m as int]);
                    assert(pair_le(rem0[m as int], rem0[j0]));
                }
            }
        }
    }
    proof {
        broadcast use vstd::seq_lib::group_to_multiset_ensures;
        broadcast use vstd::multiset::group_multiset_axioms;

        lemma_pair_le_total();
        input0.lemma_sort_by_ensures(pair_le_fn());
        assert(rem@.to_multiset() =~= vstd::multiset::Multiset::empty()) by {
            assert(rem@.to_multiset().len() == 0);
        }
        assert(out@.to_multiset() =~= out@.to_multiset().add(rem@.to_multiset()));
        vstd::seq_lib::lemma_sorted_unique(out@, input0.sort_by(pair_le_fn()), pair_le_fn());
    }
    out
}

/// The least fingerprint among the entries (0 when there are none).
pub open spec fn fp_min(s: Seq<(i64, i64)>) -> i64
    decreases s.len(),
{
    if s.len() == 0 {
        0
    } else if s.len() == 1 {
        s[0].1
    } else {
        let m = fp_min(s.drop_last());
        if s.last().1 < m {
            s.last().1
        } else {
            m
        }
    }
}

/// The greatest fingerprint among the entries (0 when there are none).
pub open spec fn fp_max(s: Seq<(i64, i64)>) -> i64
    decreases s.len(),
{
    if s.len() == 0 {
        0
    } else if s.len() == 1 {
        s[0].1
    } else {
        let m = fp_max(s.drop_last());
        if s.last().1 > m {
            s.last().1
        } else {
            m
        }
    }
}

/// Every fingerprint lies between the least and the greatest.
pub proof fn lemma_fp_bounds(s: Seq<(i64, i64)>, i: int)
    requires
        0 <= i < s.len(),
    ensures
        fp_min(s) <= s[i].1 <= fp_max(s),
    decreases s.len(),
{
    if s.len() > 1 && i < s.len() - 1 {
        lemma_fp_bounds(s.drop_last(), i);
    }
}

/// Whether some other entry shares the fingerprint of `p`.
pub open spec fn collides_in(s: Seq<(i64, i64)>, p: (i64, i64)) -> bool {
    exists|i: int| 0 <= i < s.len() && s[i].1 == p.1 && s[i] != p
}

/// The selection predicate of the collision scan of one partition: the
/// entry's fingerprint falls in the partition's range and is shared
/// with another entry, and its id still names a stored address — the
/// scan joins the entries with the address table, so an entry left
/// dangling by a bulk delete yields no row (though it still counts as a
/// fingerprint-sharer for others).
pub open spec fn collision_pred(v: DbHashesV, part: int, nb_parts: int) -> spec_fn(
    (i64, i64),
) -> bool {
    |p: (i64, i64)|
        part_lo(fp_min(v.hashes) as int, fp_max(v.hashes) as int, nb_parts, part) <= p.1
            < part_lo(fp_min(v.hashes) as int, fp_max(v.hashes) as int, nb_parts, part + 1)
            && collides_in(v.hashes, p) && v.has_id(p.0)
}

/// The fingerprint entries of one partition's collision scan, ordered by
/// fingerprint and id.
pub open spec fn collision_pairs(v: DbHashesV, part: int, nb_parts: int) -> Seq<(i64, i64)> {
    v.hashes.filter(collision_pred(v, part, nb_parts)).sort_by(pair_le_fn())
}

/// The stored row for a fingerprint entry: the entry's address and rank,
/// drawn from the store by id.
pub open spec fn item_of(v: DbHashesV, p: (i64, i64)) -> HashIterItemV {
    let k = choose|k: int| 0 <= k < v.addresses.len() && v.addresses[k].id == p.0;
    HashIterItemV { address: v.addresses[k].address, hash: p.1, id: p.0, rank: v.addresses[k].rank }
}

/// The rows of one partition's collision scan, grouped by fingerprint
/// (rows of one fingerprint are contiguous) and ordered by fingerprint.
pub open spec fn collision_items(v: DbHashesV, part: int, nb_parts: int) -> Seq<HashIterItemV> {
    collision_pairs(v, part, nb_parts).map_values(|p: (i64, i64)| item_of(v, p))
}


/// The fingerprint entries that collide with another entry.
pub open spec fn colliding_entries(v: DbHashesV) -> Seq<(i64, i64)> {
    v.hashes.filter(|p: (i64, i64)| collides_in(v.hashes, p))
}

/// The city fields of the stored addresses, in storage order.
pub open spec fn cities_of(v: DbHashesV) -> Seq<Option<Seq<u8>>> {
    v.addresses.map_values(|sa: StoredAddressV| sa.address.city)
}

/// Number of distinct present values in a sequence of optional fields.
pub open spec fn distinct_some_count(s: Seq<Option<Seq<u8>>>) -> int
    decreases s.len(),
{
    if s.len() == 0 {
        0
    } else {
        distinct_some_count(s.drop_last()) + (
        if s.last() is Some && !s.drop_last().contains(s.last()) {
            1int
        } else {
            0int
        })
    }
}

/// Two stored addresses with one id stand at one index.
proof fn lemma_id_index_unique(v: DbHashesV, k1: int, k2: int)
    requires
        v.inv(),
        0 <= k1 < v.addresses.len(),
        0 <= k2 < v.addresses.len(),
        v.addresses[k1].id == v.addresses[k2].id,
    ensures
        k1 == k2,
{
}

/// A sequence with the same elements as a duplicate-free one is itself
/// duplicate-free.
pub(crate) proof fn lemma_multiset_eq_distinct(a: Seq<(i64, i64)>, b: Seq<(i64, i64)>)
    requires
        a.to_multiset() == b.to_multiset(),
        forall|i: int, j: int| 0 <= i < j < a.len() ==> a[i] != a[j],
    ensures
        forall|i: int, j: int| 0 <= i < j < b.len() ==> b[i] != b[j],
{
    assert(a.no_duplicates()) by {
        assert forall|i: int, j: int| i != j && 0 <= i < a.len() && 0 <= j < a.len() implies a[i]
            != a[j] by {
            if i < j {
            } else {
            }
        }
    }
    a.lemma_multiset_has_no_duplicates();
    b.lemma_multiset_has_no_duplicates_conv();
}

/// Whether some entry other than `p` itself carries the same fingerprint.
fn has_other_with_hash(hashes: &Vec<(i64, i64)>, p: (i64, i64)) -> (r: bool)
    ensures
        r == collides_in(hashes@, p),
{
    let n = hashes.len();
    for i in 0..n
        invariant
            n == hashes@.len(),
            forall|j: int| 0 <= j < i ==> !(hashes@[j].1 == p.1 && hashes@[j] != p),
    {
        let (id, h) = hashes[i];
        if h == p.1 && !(id == p.0 && h == p.1) {
            proof {
                assert(hashes@[i as int].1 == p.1 && hashes@[i as int] != p);
            }
            return true;
        }
    }
    false
}

impl DbHashes {
    /// Build the fingerprint index: order the entries by fingerprint value
    /// so that a collision scan is a contiguous walk.
    pub fn create_hashes_index(&mut self)
        requires
            old(self).wf(),
        ensures
            final(self).wf(),
            final(self)@.hashes == old(self)@.hashes.sort_by(pair_le_fn()),
            final(self)@.addresses == old(self)@.addresses,
            final(self)@.to_delete == old(self)@.to_delete,
            final(self)@.next_id == old(self)@.next_id,
    {
        let mut pairs: Vec<(i64, i64)> = Vec::new();
        let n = self.hashes.len();
        for i in 0..n
            invariant
                n == self.hashes@.len(),
                self.hashes@ == old(self).hashes@,
                pairs@ =~= self.hashes@.take(i as int),
        {
            pairs.push(self.hashes[i]);
        }
        proof {
            assert(self.hashes@.take(n as int) =~= self.hashes@);
        }
        let sorted = sort_pairs(pairs);
        proof {
            broadcast use vstd::seq_lib::group_to_multiset_ensures;

            lemma_pair_le_total();
            old(self)@.hashes.lemma_sort_by_ensures(pair_le_fn());
            lemma_multiset_eq_distinct(old(self)@.hashes, sorted@);
        }
        self.hashes = sorted;
    }

    /// Number of fingerprint entries that collide with another entry.
    pub fn count_collisions(&self) -> (r: usize)
        requires
            self.wf(),
        ensures
            r == colliding_entries(self@).len(),
    {
        let ghost v0 = self@;
        let mut count: usize = 0;
        let n = self.hashes.len();
        for i in 0..n
            invariant
                v0 == self@,
                n == self.hashes@.len(),
                count == v0.hashes.take(i as int).filter(
                    |p: (i64, i64)| collides_in(v0.hashes, p),
                ).len(),
                count <= i,
        {
            let collides = has_other_with_hash(&self.hashes, self.hashes[i]);
            proof {
                reveal(Seq::filter);
                let p = |p: (i64, i64)| collides_in(v0.hashes, p);
                assert(v0.hashes.take(i + 1).drop_last() =~= v0.hashes.take(i as int));
                assert(v0.hashes.take(i + 1).last() == v0.hashes[i as int]);
                if collides {
                    assert(v0.hashes.take(i + 1).filter(p) == v0.hashes.take(i as int).filter(
                        p,
                    ).push(v0.hashes[i as int]));
                } else {
                    assert(v0.hashes.take(i + 1).filter(p) == v0.hashes.take(i as int).filter(p));
                }
            }
            if collides {
                count += 1;
            }
        }
        proof {
            assert(v0.hashes.take(n as int) =~= v0.hashes);
        }
        count
    }

    /// Number of distinct city values among the stored addresses.
    pub fn count_cities(&self) -> (r: usize)
        requires
            self.wf(),
        ensures
            r == distinct_some_count(cities_of(self@)),
    {
        let ghost cs = cities_of(self@);
        let mut count: usize = 0;
        let n = self.addresses.len();
        for i in 0..n
            invariant
                cs == cities_of(self@),
                n == self.addresses@.len(),
                n == cs.len(),
                count == distinct_some_count(cs.take(i as int)),
                count <= i,
        {
            let city = &self.addresses[i].address.city;
            let mut seen = false;
            for j in 0..i
                invariant
                    cs == cities_of(self@),
                    n == self.addresses@.len(),
                    n == cs.len(),
                    i < n,
                    city == &self.addresses[i as int].address.city,
                    seen ==> exists|t: int| 0 <= t < i && cs[t] == cs[i as int],
                    !seen ==> forall|t: int| 0 <= t < j ==> cs[t] != cs[i as int],
            {
                if crate::address::opt_bytes_eq(&self.addresses[j].address.city, city) {
                    proof {
                        assert(cs[j as int] == cs[i as int]);
                    }
                    seen = true;
                }
            }
            let is_some = city.is_some();
            proof {
                assert(cs.take(i + 1).drop_last() =~= cs.take(i as int));
                assert(cs.take(i + 1).last() == cs[i as int]);
                if seen {
                    let t = choose|t: int| 0 <= t < i && cs[t] == cs[i as int];
                    assert(cs.take(i as int)[t] == cs[i as int]);
                    assert(cs.take(i as int).contains(cs[i as int]));
                } else {
                    if cs.take(i as int).contains(cs[i as int]) {
                        let t = choose|t: int|
                            0 <= t < i && cs.take(i as int)[t] == cs[i as int];
                        assert(cs[t] == cs[i as int]);
                    }
                }
            }
            if is_some && !seen {
                count += 1;
            }
        }
        proof {
            assert(cs.take(n as int) =~= cs);
        }
        count
    }

    /// The rows of one partition of the collision scan: every fingerprint
    /// entry whose fingerprint falls in the partition's range and is
    /// shared with another entry, joined with its stored address, ordered
    /// by fingerprint and id so rows of one fingerprint are contiguous.
    pub fn get_collisions_iter_for_parts(&self, part: usize, nb_parts: usize) -> (r: Vec<
        HashIterItem,
    >)
        requires
            self.wf(),
            part < nb_parts,
            nb_parts <= 0x7fff_ffff,
        ensures
            r@.map_values(|it: HashIterItem| it@) == collision_items(
                self@,
                part as int,
                nb_parts as int,
            ),
    {
        let ghost v0 = self@;
        let n = self.hashes.len();
        if n == 0 {
            let r: Vec<HashIterItem> = Vec::new();
            proof {
                broadcast use vstd::seq_lib::group_to_multiset_ensures;

                lemma_pair_le_total();
                let pred = collision_pred(v0, part as int, nb_parts as int);
                v0.hashes.lemma_filter_len(pred);
                let f = v0.hashes.filter(pred);
                f.lemma_sort_by_ensures(pair_le_fn());
                assert(f.len() == 0);
                assert(f.sort_by(pair_le_fn()).to_multiset().len() == f.to_multiset().len());
                assert(f.sort_by(pair_le_fn()).len() == f.sort_by(pair_le_fn()).to_multiset().len());
                assert(f.len() == f.to_multiset().len());
                assert(collision_pairs(v0, part as int, nb_parts as int).len() == 0);
                assert(r@.map_values(|it: HashIterItem| it@) =~= collision_items(
                    v0,
                    part as int,
                    nb_parts as int,
                ));
            }
            return r;
        }
        let mut mn: i64 = self.hashes[0].1;
        let mut mx: i64 = self.hashes[0].1;
        proof {
            assert(v0.hashes.take(1) =~= seq![v0.hashes[0]]);
        }
        for i in 1..n
            invariant
                v0 == self@,
                n == self.hashes@.len(),
                1 <= i <= n,
                mn == fp_min(v0.hashes.take(i as int)),
                mx == fp_max(v0.hashes.take(i as int)),
        {
            let h = self.hashes[i].1;
            proof {
                assert(v0.hashes.take(i + 1).drop_last() =~= v0.hashes.take(i as int));
                assert(v0.hashes.take(i + 1).last() == v0.hashes[i as int]);
                assert(v0.hashes.take(i + 1).len() == i + 1 >= 2);
            }
            if h < mn {
                mn = h;
            }
            if h > mx {
                mx = h;
            }
        }
        proof {
            assert(v0.hashes.take(n as int) =~= v0.hashes);
            lemma_fp_bounds(v0.hashes, 0);
        }
        let lo = crate::utils::part_lo_exec(mn, mx, nb_parts, part);
        let hi = crate::utils::part_lo_exec(mn, mx, nb_parts, part + 1);
        let mut cands: Vec<(i64, i64)> = Vec::new();
        let ghost pred = collision_pred(v0, part as int, nb_parts as int);
        for i in 0..n
            invariant
                v0 == self@,
                n == self.hashes@.len(),
                pred == collision_pred(v0, part as int, nb_parts as int),
                lo == part_lo(fp_min(v0.hashes) as int, fp_max(v0.hashes) as int, nb_parts as int, part as int),
                hi == part_lo(fp_min(v0.hashes) as int, fp_max(v0.hashes) as int, nb_parts as int, part as int + 1),
                cands@ =~= v0.hashes.take(i as int).filter(pred),
        {
            let p = self.hashes[i];
            let in_range = (p.1 as i128) >= lo && (p.1 as i128) < hi;
            let collides = has_other_with_hash(&self.hashes, p);
            let joined = self.find_by_id(p.0).is_some();
            proof {
                reveal(Seq::filter);
                assert(v0.hashes.take(i + 1).drop_last() =~= v0.hashes.take(i as int));
                assert(v0.hashes.take(i + 1).last() == v0.hashes[i as int]);
                assert(pred(p) == (in_range && collides && joined));
                if in_range && collides && joined {
                    assert(v0.hashes.take(i + 1).filter(pred) == v0.hashes.take(i as int).filter(
                        pred,
                    ).push(v0.hashes[i as int]));
                } else {
                    assert(v0.hashes.take(i + 1).filter(pred) == v0.hashes.take(i as int).filter(
                        pred,
                    ));
                }
            }
            if in_range && collides && joined {
                cands.push(p);
            }
        }
        proof {
            assert(v0.hashes.take(n as int) =~= v0.hashes);
        }
        let sorted = sort_pairs(cands);
        let ghost cp = collision_pairs(v0, part as int, nb_parts as int);
        proof {
            assert(sorted@ == cp);
        }
        let mut r: Vec<HashIterItem> = Vec::new();
        let m = sorted.len();
        for i in 0..m
            invariant
                v0 == self@,
                self.wf(),
                m == sorted@.len(),
                sorted@ == cp,
                cp == collision_pairs(v0, part as int, nb_parts as int),
                r@.map_values(|it: HashIterItem| it@) =~= cp.map_values(
                    |p: (i64, i64)| item_of(v0, p),
                ).take(i as int),
        {
            let p = sorted[i];
            proof {
                broadcast use vstd::seq_lib::group_to_multiset_ensures;

                lemma_pair_le_total();
                let pred = collision_pred(v0, part as int, nb_parts as int);
                v0.hashes.filter(pred).lemma_sort_by_ensures(pair_le_fn());
                assert(cp.contains(p)) by {
                    assert(cp[i as int] == p);
                }
                assert(cp.to_multiset().contains(p));
                assert(v0.hashes.filter(pred).to_multiset().count(p) > 0);
                assert(v0.hashes.filter(pred).contains(p));
                let fi = choose|fi: int|
                    0 <= fi < v0.hashes.filter(pred).len() && v0.hashes.filter(pred)[fi] == p;
                v0.hashes.lemma_filter_pred(pred, fi);
                assert(pred(p));
                assert(v0.has_id(p.0));
            }
            let k = match self.find_by_id(p.0) {
                Some(k) => k,
                None => vstd::pervasive::unreached(),
            };
            let sa = &self.addresses[k];
            let item = HashIterItem {
                address: sa.address.clone(),
                hash: p.1,
                id: p.0,
                rank: sa.rank,
            };
            proof {
                let kk = choose|kk: int|
                    0 <= kk < v0.addresses.len() && v0.addresses[kk].id == p.0;
                lemma_id_index_unique(v0, k as int, kk);
                assert(item@ == item_of(v0, p));
                assert(cp.map_values(|q: (i64, i64)| item_of(v0, q)).take(i + 1) =~= cp.map_values(
                    |q: (i64, i64)| item_of(v0, q),
                ).take(i as int).push(item_of(v0, p)));
            }
            r.push(item);
        }
        proof {
            assert(cp.map_values(|p: (i64, i64)| item_of(v0, p)).take(m as int) =~= cp.map_values(
                |p: (i64, i64)| item_of(v0, p),
            ));
            assert(r@.map_values(|it: HashIterItem| it@) =~= collision_items(
                v0,
                part as int,
                nb_parts as int,
            ));
        }
        r
    }
}


/// An entry stands in a partition's collision scan exactly when the
/// store holds it, its fingerprint falls in the partition's range,
/// another entry shares the fingerprint, and its id still names a
/// stored address.
pub proof fn lemma_collision_pairs_contains(v: DbHashesV, part: int, nb_parts: int, p: (i64, i64))
    requires
        1 <= nb_parts,
    ensures
        collision_pairs(v, part, nb_parts).contains(p) <==> (v.hashes.contains(p) && collides_in(
            v.hashes,
            p,
        ) && v.has_id(p.0) && part_lo(
            fp_min(v.hashes) as int,
            fp_max(v.hashes) as int,
            nb_parts,
            part,
        ) <= p.1 < part_lo(fp_min(v.hashes) as int, fp_max(v.hashes) as int, nb_parts, part + 1)),
{
    broadcast use vstd::seq_lib::group_to_multiset_ensures;

    let pred = collision_pred(v, part, nb_parts);
    let f = v.hashes.filter(pred);
    let cp = collision_pairs(v, part, nb_parts);
    lemma_pair_le_total();
    f.lemma_sort_by_ensures(pair_le_fn());
    if cp.contains(p) {
        assert(cp.to_multiset().count(p) > 0);
        assert(f.contains(p));
        let i = choose|i: int| 0 <= i < f.len() && f[i] == p;
        v.hashes.lemma_filter_pred(pred, i);
        lemma_filter_index_same(v.hashes, pred, i);
        let a = choose|a: int| 0 <= a < v.hashes.len() && v.hashes[a] == f[i];
        assert(v.hashes.contains(p));
        assert(pred(p));
    }
    if v.hashes.contains(p) && pred(p) {
        let a = choose|a: int| 0 <= a < v.hashes.len() && v.hashes[a] == p;
        v.hashes.lemma_filter_contains(pred, a);
        assert(f.contains(p));
        assert(f.to_multiset().count(p) > 0);
        assert(cp.to_multiset().count(p) > 0);
        assert(cp.contains(p));
    }
}

/// Law: partition soundness. An entry stands in the full collision scan
/// exactly when it stands in some partition's scan, and in no more than
/// one: the partitioned scans tile the full collision set with no
/// overlap.
pub proof fn lemma_collisions_partition_sound(v: DbHashesV, nb_parts: int, p: (i64, i64))
    requires
        1 <= nb_parts,
    ensures
        collision_pairs(v, 0, 1).contains(p) <==> exists|q: int|
            0 <= q < nb_parts && #[trigger] collision_pairs(v, q, nb_parts).contains(p),
        forall|q1: int, q2: int|
            0 <= q1 < nb_parts && 0 <= q2 < nb_parts && #[trigger] collision_pairs(
                v,
                q1,
                nb_parts,
            ).contains(p) && #[trigger] collision_pairs(v, q2, nb_parts).contains(p) ==> q1 == q2,
{
    let mn = fp_min(v.hashes) as int;
    let mx = fp_max(v.hashes) as int;
    lemma_collision_pairs_contains(v, 0, 1, p);
    assert forall|q: int| 0 <= q < nb_parts implies (collision_pairs(v, q, nb_parts).contains(p)
        <==> (v.hashes.contains(p) && collides_in(v.hashes, p) && v.has_id(p.0) && part_lo(
        mn,
        mx,
        nb_parts,
        q,
    ) <= p.1 < part_lo(mn, mx, nb_parts, q + 1))) by {
        lemma_collision_pairs_contains(v, q, nb_parts, p);
    }
    if v.hashes.contains(p) {
        let a = choose|a: int| 0 <= a < v.hashes.len() && v.hashes[a] == p;
        lemma_fp_bounds(v.hashes, a);
        lemma_fp_bounds(v.hashes, 0);
        assert(mn <= p.1 <= mx);
        crate::utils::lemma_partition_sound(mn, mx, nb_parts, p.1 as int);
        assert(part_lo(mn, mx, 1, 0) == mn) by {
            assert(0 * (mx - mn + 1) / 1 == 0) by (nonlinear_arith);
        }
        assert(part_lo(mn, mx, 1, 1) == mx + 1) by {
            assert(1 * (mx - mn + 1) / 1 == mx - mn + 1) by (nonlinear_arith);
        }
        if collides_in(v.hashes, p) && v.has_id(p.0) {
            assert(collision_pairs(v, 0, 1).contains(p));
            let q = choose|q: int|
                0 <= q < nb_parts && crate::utils::in_part(mn, mx, nb_parts, q, p.1 as int);
            assert(collision_pairs(v, q, nb_parts).contains(p));
        }
    }
    assert forall|q1: int, q2: int|
        0 <= q1 < nb_parts && 0 <= q2 < nb_parts && #[trigger] collision_pairs(
            v,
            q1,
            nb_parts,
        ).contains(p) && #[trigger] collision_pairs(v, q2, nb_parts).contains(p) implies q1
        == q2 by {
        let a = choose|a: int| 0 <= a < v.hashes.len() && v.hashes[a] == p;
        lemma_fp_bounds(v.hashes, a);
        crate::utils::lemma_partition_sound(mn, mx, nb_parts, p.1 as int);
        assert(crate::utils::in_part(mn, mx, nb_parts, q1, p.1 as int));
        assert(crate::utils::in_part(mn, mx, nb_parts, q2, p.1 as int));
    }
}

} // verus!
