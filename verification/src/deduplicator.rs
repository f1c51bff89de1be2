//! The deduplicator facade and the collision resolver.
//!
//! Ingest feeds records through the eligibility filter and the hasher into
//! the store. The resolver then walks the fingerprint groups of the
//! collision scan, partition by partition; inside a group it ranks the
//! entries, keeps the best of every set of duplicates and marks the rest
//! for deletion. The outside comparison inputs of the candidate pairs —
//! distance and fuzzy field verdicts — are handed in as a table of
//! [`PairFact`]s; a pair the table does not name counts as unrelated.

use vstd::prelude::*;
use crate::address::{Address, AddressV};
use crate::db_hashes::{
    DbHashes, DbHashesV, HashIterItem, HashIterItemV, StoredAddressV, collision_items,
};
use crate::dedupe::{PairContext, is_duplicate, is_duplicate_spec};

verus! {

/// Collision groups larger than this are not compared pairwise: every
/// entry of such a group is marked for deletion outright.
pub const MAX_PACK_SIZE: usize = 5000;

/// The outside comparison inputs for one unordered pair of stored
/// addresses, named by their ids.
#[derive(Clone, Copy, PartialEq, Eq, Structural, Debug)]
pub struct PairFact {
    pub id_a: i64,
    pub id_b: i64,
    pub ctx: PairContext,
}

/// The comparison context recorded for the unordered pair `{a, b}`: the
/// first matching fact wins, and a pair no fact names is unrelated.
pub open spec fn lookup_ctx(facts: Seq<PairFact>, a: i64, b: i64) -> PairContext
    decreases facts.len(),
{
    if facts.len() == 0 {
        PairContext::unrelated_spec()
    } else if (facts[0].id_a == a && facts[0].id_b == b) || (facts[0].id_a == b && facts[0].id_b
        == a) {
        facts[0].ctx
    } else {
        lookup_ctx(facts.drop_first(), a, b)
    }
}

/// The recorded context does not depend on the order of the pair.
pub proof fn lemma_lookup_ctx_symmetric(facts: Seq<PairFact>, a: i64, b: i64)
    ensures
        lookup_ctx(facts, a, b) == lookup_ctx(facts, b, a),
    decreases facts.len(),
{
    if facts.len() > 0 {
        lemma_lookup_ctx_symmetric(facts.drop_first(), a, b);
    }
}

/// Find the comparison context recorded for a pair of ids.
fn lookup_ctx_exec(facts: &Vec<PairFact>, a: i64, b: i64) -> (r: PairContext)
    ensures
        r == lookup_ctx(facts@, a, b),
{
    let n = facts.len();
    proof {
        assert(facts@.skip(0) =~= facts@);
    }
    for i in 0..n
        invariant
            n == facts@.len(),
            lookup_ctx(facts@, a, b) == lookup_ctx(facts@.skip(i as int), a, b),
    {
        let f = &facts[i];
        proof {
            assert(facts@.skip(i as int).drop_first() =~= facts@.skip(i + 1));
            assert(facts@.skip(i as int)[0] == facts@[i as int]);
        }
        if (f.id_a == a && f.id_b == b) || (f.id_a == b && f.id_b == a) {
            return f.ctx;
        }
    }
    proof {
        assert(facts@.skip(n as int) =~= Seq::<PairFact>::empty());
    }
    PairContext::unrelated()
}

/// Descending order of group entries: by rank, then id, the best first.
pub open spec fn group_key_ge(a: HashIterItemV, b: HashIterItemV) -> bool {
    a.rank > b.rank || (a.rank == b.rank && a.id >= b.id)
}

/// The item of `s` carrying id `id`.
pub open spec fn item_with_id(s: Seq<HashIterItemV>, id: i64) -> HashIterItemV {
    s[choose|k: int| 0 <= k < s.len() && s[k].id == id]
}

/// A collision group ordered for resolution: its `(id, rank)` pairs
/// sorted by rank then id, best first, each pair replaced by its item.
/// Well-defined when ids are distinct within the group.
pub open spec fn sort_group_spec(s: Seq<HashIterItemV>) -> Seq<HashIterItemV> {
    let pairs = s.map_values(|it: HashIterItemV| (it.id, it.rank));
    let sorted = pairs.sort_by(crate::db_hashes::pair_le_fn()).reverse();
    sorted.map_values(|p: (i64, i64)| item_with_id(s, p.0))
}

/// Outcome of resolving one rank-ordered collision group.
pub ghost struct ResolvedV {
    pub kept: Seq<HashIterItemV>,
    pub deleted: Seq<i64>,
}

/// First-representative-wins resolution of a rank-ordered group: walk the
/// entries from the best down; an entry that duplicates some already-kept
/// entry is deleted, any other is kept.
pub open spec fn resolve_sorted_spec(s: Seq<HashIterItemV>, facts: Seq<PairFact>) -> ResolvedV
    decreases s.len(),
{
    if s.len() == 0 {
        ResolvedV { kept: Seq::empty(), deleted: Seq::empty() }
    } else {
        let prev = resolve_sorted_spec(s.drop_last(), facts);
        let it = s.last();
        if exists|k: int|
            0 <= k < prev.kept.len() && is_duplicate_spec(
                it.address,
                prev.kept[k].address,
                lookup_ctx(facts, it.id, prev.kept[k].id),
            ) {
            ResolvedV { kept: prev.kept, deleted: prev.deleted.push(it.id) }
        } else {
            ResolvedV { kept: prev.kept.push(it), deleted: prev.deleted }
        }
    }
}

/// The ids a collision group sends to deletion: everything in an oversize
/// group, and the duplicates of better-ranked kept entries otherwise.
pub open spec fn resolve_group_spec(s: Seq<HashIterItemV>, facts: Seq<PairFact>) -> Seq<i64> {
    if s.len() > MAX_PACK_SIZE {
        s.map_values(|it: HashIterItemV| it.id)
    } else {
        resolve_sorted_spec(sort_group_spec(s), facts).deleted
    }
}


/// Copy of a collision row.
fn clone_item(it: &HashIterItem) -> (r: HashIterItem)
    ensures
        r@ == it@,
{
    HashIterItem { address: it.address.clone(), hash: it.hash, id: it.id, rank: it.rank }
}

/// Index of the group entry carrying the given id.
fn find_item_by_id(items: &Vec<HashIterItem>, id: i64) -> (r: usize)
    requires
        exists|k: int| 0 <= k < items@.len() && items@[k]@.id == id,
    ensures
        r < items@.len(),
        items@[r as int]@.id == id,
{
    let n = items.len();
    for i in 0..n
        invariant
            n == items@.len(),
            exists|k: int| 0 <= k < items@.len() && items@[k]@.id == id,
            forall|j: int| 0 <= j < i ==> items@[j]@.id != id,
    {
        if items[i].id == id {
            return i;
        }
    }
    proof {
        let k = choose|k: int| 0 <= k < items@.len() && items@[k]@.id == id;
        assert(false);
    }
    vstd::pervasive::unreached()
}

/// Order a collision group for resolution: best `(rank, id)` first.
fn sort_group(group: &Vec<HashIterItem>) -> (r: Vec<HashIterItem>)
    requires
        forall|i: int, j: int|
            0 <= i < j < group@.len() ==> group@[i]@.id != group@[j]@.id,
    ensures
        r@.map_values(|it: HashIterItem| it@) == sort_group_spec(
            group@.map_values(|it: HashIterItem| it@),
        ),
{
    let ghost gv = group@.map_values(|it: HashIterItem| it@);
    let ghost key_seq = gv.map_values(|it: HashIterItemV| (it.id, it.rank));
    let mut pairs: Vec<(i64, i64)> = Vec::new();
    let n = group.len();
    for i in 0..n
        invariant
            gv == group@.map_values(|it: HashIterItem| it@),
            key_seq == gv.map_values(|it: HashIterItemV| (it.id, it.rank)),
            n == group@.len(),
            pairs@ =~= key_seq.take(i as int),
    {
        pairs.push((group[i].id, group[i].rank));
        proof {
            assert(key_seq.take(i + 1) =~= key_seq.take(i as int).push(key_seq[i as int]));
        }
    }
    proof {
        assert(key_seq.take(n as int) =~= key_seq);
    }
    let sorted_pairs = crate::db_hashes::sort_pairs(pairs);
    let m = sorted_pairs.len();
    let mut rev: Vec<(i64, i64)> = Vec::new();
    for i in 0..m
        invariant
            m == sorted_pairs@.len(),
            rev@.len() == i,
            forall|k: int| 0 <= k < i ==> rev@[k] == sorted_pairs@[m - 1 - k],
    {
        rev.push(sorted_pairs[m - 1 - i]);
    }
    let ghost spec_sorted = key_seq.sort_by(crate::db_hashes::pair_le_fn()).reverse();
    proof {
        assert(rev@ =~= spec_sorted);
    }
    let mut r: Vec<HashIterItem> = Vec::new();
    for i in 0..m
        invariant
            gv == group@.map_values(|it: HashIterItem| it@),
            key_seq == gv.map_values(|it: HashIterItemV| (it.id, it.rank)),
            forall|a: int, b: int| 0 <= a < b < gv.len() ==> gv[a].id != gv[b].id,
            m == rev@.len(),
            rev@ == spec_sorted,
            spec_sorted == key_seq.sort_by(crate::db_hashes::pair_le_fn()).reverse(),
            sorted_pairs@ == key_seq.sort_by(crate::db_hashes::pair_le_fn()),
            r@.map_values(|it: HashIterItem| it@) =~= spec_sorted.map_values(
                |p: (i64, i64)| item_with_id(gv, p.0),
            ).take(i as int),
    {
        let p = rev[i];
        proof {
            broadcast use vstd::seq_lib::group_to_multiset_ensures;

            crate::db_hashes::lemma_pair_le_total();
            key_seq.lemma_sort_by_ensures(crate::db_hashes::pair_le_fn());
            sorted_pairs@.lemma_reverse_to_multiset();
            assert(rev@.contains(p)) by {
                assert(rev@[i as int] == p);
            }
            assert(rev@.to_multiset().contains(p));
            assert(key_seq.to_multiset().count(p) > 0);
            assert(key_seq.contains(p));
            let k = choose|k: int| 0 <= k < key_seq.len() && key_seq[k] == p;
            assert(gv[k].id == p.0);
            assert(group@[k]@.id == p.0);
        }
        let idx = find_item_by_id(group, p.0);
        let item = clone_item(&group[idx]);
        proof {
            let k2 = choose|k2: int| 0 <= k2 < gv.len() && gv[k2].id == p.0;
            assert(gv[idx as int].id == p.0);
            assert(idx as int == k2) by {
                if (idx as int) < k2 {
                } else if k2 < idx as int {
                }
            }
            assert(item@ == item_with_id(gv, p.0));
            assert(spec_sorted.map_values(|q: (i64, i64)| item_with_id(gv, q.0)).take(i + 1)
                =~= spec_sorted.map_values(|q: (i64, i64)| item_with_id(gv, q.0)).take(
                i as int,
            ).push(item_with_id(gv, p.0)));
        }
        r.push(item);
    }
    proof {
        assert(spec_sorted.map_values(|p: (i64, i64)| item_with_id(gv, p.0)).take(m as int)
            =~= spec_sorted.map_values(|p: (i64, i64)| item_with_id(gv, p.0)));
        assert(r@.map_values(|it: HashIterItem| it@) =~= sort_group_spec(gv));
    }
    r
}

/// Resolve one collision group: the ids it sends to deletion.
fn resolve_group(group: &Vec<HashIterItem>, facts: &Vec<PairFact>) -> (r: Vec<i64>)
    requires
        forall|i: int, j: int|
            0 <= i < j < group@.len() ==> group@[i]@.id != group@[j]@.id,
    ensures
        r@ == resolve_group_spec(group@.map_values(|it: HashIterItem| it@), facts@),
{
    let ghost gv = group@.map_values(|it: HashIterItem| it@);
    let n = group.len();
    if n > MAX_PACK_SIZE {
        let mut r: Vec<i64> = Vec::new();
        for i in 0..n
            invariant
                gv == group@.map_values(|it: HashIterItem| it@),
                n == group@.len(),
                r@ =~= gv.map_values(|it: HashIterItemV| it.id).take(i as int),
        {
            r.push(group[i].id);
            proof {
                let ids = gv.map_values(|it: HashIterItemV| it.id);
                assert(ids.take(i + 1) =~= ids.take(i as int).push(ids[i as int]));
            }
        }
        proof {
            let ids = gv.map_values(|it: HashIterItemV| it.id);
            assert(ids.take(n as int) =~= ids);
        }
        return r;
    }
    let sorted = sort_group(group);
    let ghost sv = sort_group_spec(gv);
    let m = sorted.len();
    proof {
        assert(sorted@.map_values(|it: HashIterItem| it@) == sv);
        assert(sorted@.len() == sv.len());
    }
    let mut kept: Vec<usize> = Vec::new();
    let mut deleted: Vec<i64> = Vec::new();
    for t in 0..m
        invariant
            sorted@.map_values(|it: HashIterItem| it@) == sv,
            m == sorted@.len(),
            forall|u: int| 0 <= u < kept@.len() ==> (#[trigger] kept@[u]) < t,
            kept@.map_values(|u: usize| sv[u as int]) =~= resolve_sorted_spec(
                sv.take(t as int),
                facts@,
            ).kept,
            deleted@ =~= resolve_sorted_spec(sv.take(t as int), facts@).deleted,
    {
        let kn = kept.len();
        let mut found = false;
        for u in 0..kn
            invariant
                sorted@.map_values(|it: HashIterItem| it@) == sv,
                m == sorted@.len(),
                t < m,
                kn == kept@.len(),
                forall|w: int| 0 <= w < kept@.len() ==> (#[trigger] kept@[w]) < t,
                found ==> exists|k: int|
                    0 <= k < kn && is_duplicate_spec(
                        sv[t as int].address,
                        sv[kept@[k] as int].address,
                        lookup_ctx(facts@, sv[t as int].id, sv[kept@[k] as int].id),
                    ),
                !found ==> forall|k: int|
                    0 <= k < u ==> !is_duplicate_spec(
                        sv[t as int].address,
                        sv[(#[trigger] kept@[k]) as int].address,
                        lookup_ctx(facts@, sv[t as int].id, sv[kept@[k] as int].id),
                    ),
        {
            let kidx = kept[u];
            let ctx = lookup_ctx_exec(facts, sorted[t].id, sorted[kidx].id);
            proof {
                assert(sorted@[t as int]@ == sv[t as int]);
                assert(sorted@[kidx as int]@ == sv[kidx as int]);
            }
            if is_duplicate(&sorted[t].address, &sorted[kidx].address, &ctx) {
                found = true;
                proof {
                    assert(is_duplicate_spec(
                        sv[t as int].address,
                        sv[kept@[u as int] as int].address,
                        lookup_ctx(facts@, sv[t as int].id, sv[kept@[u as int] as int].id),
                    ));
                }
            }
        }
        proof {
            assert(sv.take(t + 1).drop_last() =~= sv.take(t as int));
            assert(sv.take(t + 1).last() == sv[t as int]);
            let prev = resolve_sorted_spec(sv.take(t as int), facts@);
            let kept_view = kept@.map_values(|u: usize| sv[u as int]);
            assert(kept_view == prev.kept);
            assert(found == (exists|k: int|
                0 <= k < prev.kept.len() && is_duplicate_spec(
                    sv[t as int].address,
                    prev.kept[k].address,
                    lookup_ctx(facts@, sv[t as int].id, prev.kept[k].id),
                ))) by {
                if found {
                    let k = choose|k: int|
                        0 <= k < kn && is_duplicate_spec(
                            sv[t as int].address,
                            sv[kept@[k] as int].address,
                            lookup_ctx(facts@, sv[t as int].id, sv[kept@[k] as int].id),
                        );
                    assert(prev.kept[k] == sv[kept@[k] as int]);
                } else {
                    if exists|k: int|
                        0 <= k < prev.kept.len() && is_duplicate_spec(
                            sv[t as int].address,
                            prev.kept[k].address,
                            lookup_ctx(facts@, sv[t as int].id, prev.kept[k].id),
                        ) {
                        let k = choose|k: int|
                            0 <= k < prev.kept.len() && is_duplicate_spec(
                                sv[t as int].address,
                                prev.kept[k].address,
                                lookup_ctx(facts@, sv[t as int].id, prev.kept[k].id),
                            );
                        assert(prev.kept[k] == sv[kept@[k] as int]);
                        assert(false);
                    }
                }
            }
        }
        if found {
            deleted.push(sorted[t].id);
            proof {
                assert(deleted@ =~= resolve_sorted_spec(sv.take(t + 1), facts@).deleted);
                assert(kept@.map_values(|u: usize| sv[u as int]) =~= resolve_sorted_spec(
                    sv.take(t + 1),
                    facts@,
                ).kept);
            }
        } else {
            kept.push(t);
            proof {
                assert(kept@.map_values(|u: usize| sv[u as int]) =~= resolve_sorted_spec(
                    sv.take(t + 1),
                    facts@,
                ).kept);
                assert(deleted@ =~= resolve_sorted_spec(sv.take(t + 1), facts@).deleted);
            }
        }
    }
    proof {
        assert(sv.take(m as int) =~= sv);
    }
    deleted
}


/// Length of the leading run of entries sharing the first entry's
/// fingerprint.
pub open spec fn run_len(items: Seq<HashIterItemV>) -> int
    decreases items.len(),
{
    if items.len() == 0 {
        0
    } else if items.len() == 1 {
        1
    } else if items[1].hash == items[0].hash {
        1 + run_len(items.drop_first())
    } else {
        1
    }
}

/// The leading run is non-empty, bounded by the sequence, consists of
/// entries of the first fingerprint, and is maximal.
pub proof fn lemma_run_len_char(items: Seq<HashIterItemV>)
    requires
        items.len() > 0,
    ensures
        1 <= run_len(items) <= items.len(),
        forall|t: int| 0 <= t < run_len(items) ==> (#[trigger] items[t]).hash == items[0].hash,
        run_len(items) < items.len() ==> items[run_len(items)].hash != items[0].hash,
    decreases items.len(),
{
    if items.len() > 1 && items[1].hash == items[0].hash {
        lemma_run_len_char(items.drop_first());
        let l = run_len(items);
        assert forall|t: int| 0 <= t < l implies (#[trigger] items[t]).hash == items[0].hash by {
            if t > 0 {
                assert(items.drop_first()[t - 1] == items[t]);
            }
        }
        if l < items.len() {
            assert(items.drop_first()[l - 1] == items[l]);
        }
    }
}

/// The ids every collision scan sends to deletion, run by run over the
/// scan of one partition.
pub open spec fn deleted_of_items(items: Seq<HashIterItemV>, facts: Seq<PairFact>) -> Seq<i64>
    decreases items.len(),
    via deleted_of_items_dec
{
    if items.len() == 0 {
        Seq::empty()
    } else {
        let l = run_len(items);
        resolve_group_spec(items.take(l), facts) + deleted_of_items(items.skip(l), facts)
    }
}

#[via_fn]
proof fn deleted_of_items_dec(items: Seq<HashIterItemV>, facts: Seq<PairFact>) {
    if items.len() > 0 {
        lemma_run_len_char(items);
    }
}

/// Number of partitions the resolver walks for a given thread count.
pub open spec fn nb_parts_of(nb_threads: int) -> int {
    if nb_threads > 2 {
        nb_threads - 1
    } else {
        1
    }
}

/// The ids sent to deletion by the scans of partitions `0 .. p`.
pub open spec fn deleted_upto(
    v: DbHashesV,
    facts: Seq<PairFact>,
    nb_parts: int,
    p: int,
) -> Seq<i64>
    decreases p,
{
    if p <= 0 {
        Seq::empty()
    } else {
        deleted_upto(v, facts, nb_parts, p - 1) + deleted_of_items(
            collision_items(v, p - 1, nb_parts),
            facts,
        )
    }
}

/// Two entries of one collision scan that share a fingerprint carry
/// distinct ids, because the scan's `(id, fingerprint)` pairs are
/// distinct.
pub proof fn lemma_collision_items_distinct(
    v: DbHashesV,
    part: int,
    nb_parts: int,
    a: int,
    b: int,
)
    requires
        v.inv(),
        0 <= a < b < collision_items(v, part, nb_parts).len(),
        collision_items(v, part, nb_parts)[a].hash == collision_items(v, part, nb_parts)[b].hash,
    ensures
        collision_items(v, part, nb_parts)[a].id != collision_items(v, part, nb_parts)[b].id,
{
    broadcast use vstd::seq_lib::group_to_multiset_ensures;

    let pred = crate::db_hashes::collision_pred(v, part, nb_parts);
    let f = v.hashes.filter(pred);
    let cp = crate::db_hashes::collision_pairs(v, part, nb_parts);
    crate::db_hashes::lemma_pair_le_total();
    f.lemma_sort_by_ensures(crate::db_hashes::pair_le_fn());
    assert forall|i: int, j: int| 0 <= i < j < f.len() implies f[i] != f[j] by {
        crate::db_hashes::lemma_filter_index_mono(v.hashes, pred, i, j);
    }
    crate::db_hashes::lemma_multiset_eq_distinct(f, cp);
    let ia = collision_items(v, part, nb_parts)[a];
    let ib = collision_items(v, part, nb_parts)[b];
    assert(ia == crate::db_hashes::item_of(v, cp[a]));
    assert(ib == crate::db_hashes::item_of(v, cp[b]));
    assert(ia.id == cp[a].0 && ia.hash == cp[a].1);
    assert(ib.id == cp[b].0 && ib.hash == cp[b].1);
    if ia.id == ib.id {
        assert(cp[a] == cp[b]);
        assert(false);
    }
}

/// Configuration of the deduplicator: how many worker threads the caller
/// intends to run; the resolver derives its partition count from it.
pub struct DedupeConfig {
    pub nb_threads: usize,
}

/// The deduplication engine: a working store plus its configuration.
pub struct Deduplicator {
    db: DbHashes,
    config: DedupeConfig,
}

impl View for Deduplicator {
    type V = DbHashesV;

    closed spec fn view(&self) -> DbHashesV {
        self.db@
    }
}

impl Deduplicator {
    /// Well-formedness of the underlying store.
    pub closed spec fn wf(self) -> bool {
        self.db.wf()
    }

    /// The partition count the resolver will use.
    pub closed spec fn nb_parts(self) -> int {
        nb_parts_of(self.config.nb_threads as int)
    }

    /// A well-formed deduplicator holds a store satisfying its invariant.
    pub proof fn lemma_wf_inv(self)
        requires
            self.wf(),
        ensures
            self@.inv(),
    {
        self.db.lemma_wf_inv();
    }

    /// A fresh deduplicator over an empty store.
    pub fn new(config: DedupeConfig) -> (r: Deduplicator)
        ensures
            r.wf(),
            r@.addresses == Seq::<StoredAddressV>::empty(),
            r@.hashes == Seq::<(i64, i64)>::empty(),
            r@.to_delete == Set::<i64>::empty(),
            r@.next_id == 1,
            r.nb_parts() == nb_parts_of(config.nb_threads as int),
    {
        Deduplicator { db: DbHashes::new(), config }
    }
}


impl Deduplicator {
    /// Walk every partition of the collision scan, resolve each
    /// fingerprint group, and mark the losers for deletion: in a group,
    /// entries are visited by descending `(rank, id)` and an entry that
    /// duplicates an already-kept one is marked; an oversize group is
    /// marked whole.
    pub fn compute_duplicates(&mut self, facts: &Vec<PairFact>)
        requires
            old(self).wf(),
            old(self).nb_parts() <= 0x7fff_ffff,
        ensures
            final(self).wf(),
            final(self)@.addresses == old(self)@.addresses,
            final(self)@.hashes == old(self)@.hashes,
            final(self)@.next_id == old(self)@.next_id,
            final(self).nb_parts() == old(self).nb_parts(),
            final(self)@.to_delete == old(self)@.to_delete.union(
                deleted_upto(
                    old(self)@,
                    facts@,
                    old(self).nb_parts(),
                    old(self).nb_parts(),
                ).to_set(),
            ),
    {
        let ghost v0 = self@;
        proof {
            self.lemma_wf_inv();
        }
        let nb_threads = self.config.nb_threads;
        let nb_parts: usize = if nb_threads > 2 {
            nb_threads - 1
        } else {
            1
        };
        proof {
            assert(nb_parts as int == self.nb_parts());
        }
        let mut all_del: Vec<i64> = Vec::new();
        for part in 0..nb_parts
            invariant
                self.wf(),
                v0 == self@,
                v0.inv(),
                self.config.nb_threads == nb_threads,
                nb_parts as int == nb_parts_of(nb_threads as int),
                1 <= nb_parts <= 0x7fff_ffff,
                all_del@ =~= deleted_upto(v0, facts@, nb_parts as int, part as int),
        {
            let items = self.db.get_collisions_iter_for_parts(part, nb_parts);
            let ghost iv = collision_items(v0, part as int, nb_parts as int);
            proof {
                assert(items@.map_values(|it: HashIterItem| it@) == iv);
            }
            let ni = items.len();
            let ghost del_before = all_del@;
            proof {
                assert(iv.skip(0) =~= iv);
            }
            let mut i: usize = 0;
            while i < ni
                invariant
                    self.wf(),
                    v0 == self@,
                    v0.inv(),
                    iv == collision_items(v0, part as int, nb_parts as int),
                    items@.map_values(|it: HashIterItem| it@) == iv,
                    ni == items@.len(),
                    i <= ni,
                    del_before + deleted_of_items(iv, facts@) =~= all_del@ + deleted_of_items(
                        iv.skip(i as int),
                        facts@,
                    ),
                decreases ni - i,
            {
                let mut j = i + 1;
                while j < ni && items[j].hash == items[i].hash
                    invariant
                        items@.map_values(|it: HashIterItem| it@) == iv,
                        ni == items@.len(),
                        i < j <= ni,
                        forall|t: int| i <= t < j ==> (#[trigger] iv[t]).hash == iv[i as int].hash,
                    decreases ni - j,
                {
                    j += 1;
                }
                let ghost suf = iv.skip(i as int);
                let ghost l = run_len(suf);
                proof {
                    lemma_run_len_char(suf);
                    assert(suf.len() == ni - i);
                    assert(suf[0] == iv[i as int]);
                    assert forall|t: int| 0 <= t < j - i implies (#[trigger] suf[t]).hash
                        == suf[0].hash by {
                        assert(suf[t] == iv[i + t]);
                    }
                    if j < ni {
                        assert(suf[j - i] == iv[j as int]);
                        assert(suf[j - i].hash != suf[0].hash);
                    }
                    assert(l == j - i) by {
                        if l < j - i {
                            assert(suf[l].hash != suf[0].hash);
                            assert(suf[l].hash == suf[0].hash);
                        } else if l > j - i {
                            assert(j < ni);
                            assert((#[trigger] suf[j - i]).hash == suf[0].hash);
                        }
                    }
                }
                let mut group: Vec<HashIterItem> = Vec::new();
                let mut t = i;
                while t < j
                    invariant
                        items@.map_values(|it: HashIterItem| it@) == iv,
                        ni == items@.len(),
                        i <= t <= j <= ni,
                        group@.map_values(|it: HashIterItem| it@) =~= iv.subrange(
                            i as int,
                            t as int,
                        ),
                    decreases j - t,
                {
                    group.push(clone_item(&items[t]));
                    proof {
                        assert(iv.subrange(i as int, t + 1) =~= iv.subrange(i as int, t as int).push(
                            iv[t as int],
                        ));
                    }
                    t += 1;
                }
                let ghost gv = group@.map_values(|it: HashIterItem| it@);
                proof {
                    assert(gv =~= iv.subrange(i as int, j as int));
                    assert forall|a: int, b: int|
                        0 <= a < b < group@.len() implies group@[a]@.id != group@[b]@.id by {
                        assert(gv[a] == iv[i + a] && gv[b] == iv[i + b]);
                        assert(iv[i + a].hash == iv[i as int].hash);
                        assert(iv[i + b].hash == iv[i as int].hash);
                        lemma_collision_items_distinct(
                            v0,
                            part as int,
                            nb_parts as int,
                            i + a,
                            i + b,
                        );
                        assert(group@[a]@ == gv[a] && group@[b]@ == gv[b]);
                    }
                }
                let dels = resolve_group(&group, facts);
                let nd = dels.len();
                let ghost all_before_run = all_del@;
                let mut q: usize = 0;
                while q < nd
                    invariant
                        nd == dels@.len(),
                        q <= nd,
                        all_del@ =~= all_before_run + dels@.take(q as int),
                    decreases nd - q,
                {
                    all_del.push(dels[q]);
                    proof {
                        assert(dels@.take(q + 1) =~= dels@.take(q as int).push(dels@[q as int]));
                    }
                    q += 1;
                }
                proof {
                    assert(dels@.take(nd as int) =~= dels@);
                    assert(all_del@ =~= all_before_run + dels@);
                    assert(suf.take(l) =~= gv);
                    assert(suf.skip(l) =~= iv.skip(j as int));
                    assert(deleted_of_items(suf, facts@) == resolve_group_spec(gv, facts@)
                        + deleted_of_items(iv.skip(j as int), facts@));
                    assert(dels@ == resolve_group_spec(gv, facts@));
                    assert(del_before + deleted_of_items(iv, facts@) =~= all_del@
                        + deleted_of_items(iv.skip(j as int), facts@));
                }
                i = j;
            }
            proof {
                assert(iv.skip(ni as int) =~= Seq::<HashIterItemV>::empty());
                assert(deleted_of_items(iv.skip(ni as int), facts@) == Seq::<i64>::empty());
                assert(all_del@ =~= del_before + deleted_of_items(iv, facts@));
                assert(deleted_upto(v0, facts@, nb_parts as int, part as int + 1) == deleted_upto(
                    v0,
                    facts@,
                    nb_parts as int,
                    part as int,
                ) + deleted_of_items(iv, facts@));
                assert(all_del@ =~= deleted_upto(v0, facts@, nb_parts as int, part as int + 1));
            }
        }
        let _count = self.db.insert_to_delete(&all_del);
        proof {
            assert(self@.to_delete =~= old(self)@.to_delete.union(
                deleted_upto(v0, facts@, nb_parts as int, nb_parts as int).to_set(),
            ));
        }
    }

    /// Apply the deletion markers: remove the marked addresses,
    /// returning how many were removed. The fingerprint entries and the
    /// markers are untouched until cleanup; entries of removed addresses
    /// dangle and the collision scan joins them away.
    pub fn apply_deletions(&mut self) -> (removed: usize)
        requires
            old(self).wf(),
        ensures
            final(self).wf(),
            final(self)@.addresses == old(self)@.addresses.filter(
                |sa: StoredAddressV| !old(self)@.to_delete.contains(sa.id),
            ),
            final(self)@.hashes == old(self)@.hashes,
            final(self)@.to_delete == old(self)@.to_delete,
            final(self)@.next_id == old(self)@.next_id,
            final(self).nb_parts() == old(self).nb_parts(),
            removed == old(self)@.addresses.len() - final(self)@.addresses.len(),
    {
        self.db.apply_addresses_to_delete()
    }

    /// Apply the deletion markers and, unless asked to keep the
    /// construction tables, drop the fingerprint entries and the
    /// markers.
    pub fn apply_and_clean(&mut self, keep: bool) -> (removed: usize)
        requires
            old(self).wf(),
        ensures
            final(self).wf(),
            final(self)@.addresses == old(self)@.addresses.filter(
                |sa: StoredAddressV| !old(self)@.to_delete.contains(sa.id),
            ),
            final(self)@.hashes == (
            if keep {
                old(self)@.hashes
            } else {
                Seq::<(i64, i64)>::empty()
            }),
            final(self)@.to_delete == (
            if keep {
                old(self)@.to_delete
            } else {
                Set::<i64>::empty()
            }),
            final(self)@.next_id == old(self)@.next_id,
            final(self).nb_parts() == old(self).nb_parts(),
            removed == old(self)@.addresses.len() - final(self)@.addresses.len(),
    {
        let removed = self.db.apply_addresses_to_delete();
        if !keep {
            self.db.cleanup_database();
        }
        removed
    }

    /// Drop the construction tables once resolution is over: the
    /// fingerprint entries and the deletion markers. Only the addresses
    /// remain.
    pub fn cleanup_database(&mut self)
        requires
            old(self).wf(),
        ensures
            final(self).wf(),
            final(self)@.addresses == old(self)@.addresses,
            final(self)@.hashes == Seq::<(i64, i64)>::empty(),
            final(self)@.to_delete == Set::<i64>::empty(),
            final(self)@.next_id == old(self)@.next_id,
            final(self).nb_parts() == old(self).nb_parts(),
    {
        self.db.cleanup_database()
    }

    /// The surviving addresses, in storage order.
    pub fn addresses(&self) -> (r: Vec<Address>)
        requires
            self.wf(),
        ensures
            r@.map_values(|a: Address| a@) == self@.surviving(),
    {
        self.db.get_addresses()
    }

    /// Number of stored addresses.
    pub fn count_addresses(&self) -> (r: usize)
        ensures
            r == self@.addresses.len(),
    {
        self.db.count_addresses()
    }

    /// Number of fingerprint entries.
    pub fn count_hashes(&self) -> (r: usize)
        ensures
            r == self@.hashes.len(),
    {
        self.db.count_hashes()
    }

    /// Number of addresses marked for deletion.
    pub fn count_to_delete(&self) -> (r: usize)
        requires
            self.wf(),
        ensures
            r == self@.to_delete.len(),
    {
        self.db.count_to_delete()
    }
}


/// The fingerprint entries after filing fingerprints `fps` for address
/// `id`: each new `(id, fingerprint)` pair is appended unless already
/// present, in order.
pub open spec fn add_fps(hashes: Seq<(i64, i64)>, id: i64, fps: Seq<i64>) -> Seq<(i64, i64)>
    decreases fps.len(),
{
    if fps.len() == 0 {
        hashes
    } else {
        let h1 = if hashes.contains((id, fps[0])) {
            hashes
        } else {
            hashes.push((id, fps[0]))
        };
        add_fps(h1, id, fps.drop_first())
    }
}

/// Filing one more fingerprint files it after the others.
pub proof fn lemma_add_fps_snoc(hashes: Seq<(i64, i64)>, id: i64, fps: Seq<i64>, fp: i64)
    ensures
        add_fps(hashes, id, fps.push(fp)) == (
        if add_fps(hashes, id, fps).contains((id, fp)) {
            add_fps(hashes, id, fps)
        } else {
            add_fps(hashes, id, fps).push((id, fp))
        }),
    decreases fps.len(),
{
    if fps.len() == 0 {
        assert(fps.push(fp)[0] == fp);
        assert(fps.push(fp).drop_first() =~= Seq::<i64>::empty());
        let h1p = if hashes.contains((id, fp)) {
            hashes
        } else {
            hashes.push((id, fp))
        };
        assert(add_fps(hashes, id, fps.push(fp)) == add_fps(h1p, id, fps.push(fp).drop_first()));
        assert(add_fps(h1p, id, Seq::<i64>::empty()) == h1p);
        assert(add_fps(hashes, id, fps) == hashes);
    } else {
        let h1 = if hashes.contains((id, fps[0])) {
            hashes
        } else {
            hashes.push((id, fps[0]))
        };
        assert(add_fps(hashes, id, fps) == add_fps(h1, id, fps.drop_first()));
        assert(fps.push(fp)[0] == fps[0]);
        assert(fps.push(fp).drop_first() =~= fps.drop_first().push(fp));
        assert(add_fps(hashes, id, fps.push(fp)) == add_fps(h1, id, fps.drop_first().push(fp)));
        lemma_add_fps_snoc(h1, id, fps.drop_first(), fp);
    }
}

/// The store after ingesting one record: an ineligible record or one
/// without fingerprints changes nothing; a record whose natural key is
/// already stored changes nothing; any other record is stored under the
/// next id with its fingerprints filed.
pub open spec fn ingest_one(v: DbHashesV, a: AddressV, rank: i64, fps: Seq<i64>) -> DbHashesV {
    if !a.eligible() || fps.len() == 0 {
        v
    } else if v.has_key(a.natural_key()) {
        v
    } else {
        let id = v.next_id;
        DbHashesV {
            addresses: v.addresses.push(StoredAddressV { id, address: a, rank }),
            hashes: add_fps(v.hashes, id, fps),
            to_delete: v.to_delete,
            next_id: (id + 1) as i64,
        }
    }
}

impl Deduplicator {
    /// Ingest one record: the address, its caller-assigned rank, and the
    /// near-dupe keys that the outside address-matching primitive derived
    /// from it. Ineligible records and records without keys are dropped;
    /// a record already stored under its natural key is left alone.
    pub fn insert(&mut self, address: &Address, rank: i64, keys: &Vec<Vec<u8>>)
        requires
            old(self).wf(),
            old(self)@.next_id < i64::MAX,
        ensures
            final(self).wf(),
            final(self)@ == ingest_one(
                old(self)@,
                address@,
                rank,
                crate::dedupe::fingerprints_of(keys@.map_values(|k: Vec<u8>| k@)),
            ),
            final(self).nb_parts() == old(self).nb_parts(),
    {
        let ghost v0 = self@;
        let ghost fps_spec = crate::dedupe::fingerprints_of(keys@.map_values(|k: Vec<u8>| k@));
        if !address.is_eligible() {
            return;
        }
        let fps = crate::dedupe::hash_postal_keys(keys);
        proof {
            assert(fps@ =~= fps_spec);
        }
        if fps.len() == 0 {
            return;
        }
        let id = match self.db.insert_address(address, rank) {
            Ok(id) => id,
            Err(_) => {
                return;
            },
        };
        let n = fps.len();
        proof {
            assert(fps@.take(0) =~= Seq::<i64>::empty());
            assert(self@.addresses[self@.addresses.len() - 1].id == id);
            assert(self@.has_id(id));
        }
        for q in 0..n
            invariant
                self.db.wf(),
                n == fps@.len(),
                fps@ == fps_spec,
                id == v0.next_id,
                self@.addresses == v0.addresses.push(
                    StoredAddressV { id, address: address@, rank },
                ),
                self@.hashes == add_fps(v0.hashes, id, fps@.take(q as int)),
                self@.to_delete == v0.to_delete,
                self@.next_id == v0.next_id + 1,
                self@.has_id(id),
                self.config == old(self).config,
        {
            proof {
                assert(fps@.take(q + 1) =~= fps@.take(q as int).push(fps@[q as int]));
                lemma_add_fps_snoc(v0.hashes, id, fps@.take(q as int), fps@[q as int]);
            }
            let ghost before = self@;
            let res = self.db.insert_hash(id, fps[q]);
            proof {
                if res is Ok {
                    assert(self@.hashes == before.hashes.push((id, fps@[q as int])));
                } else {
                    assert(before.hashes.contains((id, fps@[q as int])) || !before.has_id(id));
                    assert(before.has_id(id));
                    assert(self@ == before);
                }
                assert(self@.hashes == add_fps(v0.hashes, id, fps@.take(q + 1)));
                assert(self@.has_id(id)) by {
                    let k = choose|k: int|
                        0 <= k < before.addresses.len() && before.addresses[k].id == id;
                    assert(self@.addresses[k].id == id);
                }
            }
        }
        proof {
            assert(fps@.take(n as int) =~= fps@);
            assert(self@ == ingest_one(v0, address@, rank, fps_spec));
        }
    }
}


/// One ingest record: the address, its rank, and its fingerprints.
pub ghost struct RecordV {
    pub address: AddressV,
    pub rank: i64,
    pub fps: Seq<i64>,
}

/// The store after ingesting a stream of records in order.
pub open spec fn ingest_seq(v: DbHashesV, records: Seq<RecordV>) -> DbHashesV
    decreases records.len(),
{
    if records.len() == 0 {
        v
    } else {
        ingest_seq(
            ingest_one(v, records[0].address, records[0].rank, records[0].fps),
            records.drop_first(),
        )
    }
}

/// Ingesting never removes a natural key.
proof fn lemma_ingest_one_monotone(
    v: DbHashesV,
    a: AddressV,
    rank: i64,
    fps: Seq<i64>,
    key: (i64, i64, Option<Seq<u8>>, Option<Seq<u8>>, Option<Seq<u8>>),
)
    requires
        v.has_key(key),
    ensures
        ingest_one(v, a, rank, fps).has_key(key),
{
    let w = ingest_one(v, a, rank, fps);
    let i = choose|i: int| 0 <= i < v.addresses.len() && v.addresses[i].address.natural_key() == key;
    assert(w.addresses[i].address.natural_key() == key);
}

/// A record that is stored leaves its natural key present.
proof fn lemma_ingest_one_registers(v: DbHashesV, a: AddressV, rank: i64, fps: Seq<i64>)
    requires
        a.eligible(),
        fps.len() > 0,
    ensures
        ingest_one(v, a, rank, fps).has_key(a.natural_key()),
{
    let w = ingest_one(v, a, rank, fps);
    if v.has_key(a.natural_key()) {
        let i = choose|i: int|
            0 <= i < v.addresses.len() && v.addresses[i].address.natural_key() == a.natural_key();
        assert(w.addresses[i].address.natural_key() == a.natural_key());
    } else {
        assert(w.addresses[w.addresses.len() - 1].address.natural_key() == a.natural_key());
    }
}

/// Natural keys survive a whole ingest stream.
proof fn lemma_ingest_seq_monotone(
    v: DbHashesV,
    records: Seq<RecordV>,
    key: (i64, i64, Option<Seq<u8>>, Option<Seq<u8>>, Option<Seq<u8>>),
)
    requires
        v.has_key(key),
    ensures
        ingest_seq(v, records).has_key(key),
    decreases records.len(),
{
    if records.len() > 0 {
        lemma_ingest_one_monotone(v, records[0].address, records[0].rank, records[0].fps, key);
        lemma_ingest_seq_monotone(
            ingest_one(v, records[0].address, records[0].rank, records[0].fps),
            records.drop_first(),
            key,
        );
    }
}

/// After an ingest stream, the key of every stored record of the stream
/// is present.
proof fn lemma_ingest_seq_registers(v: DbHashesV, records: Seq<RecordV>, i: int)
    requires
        0 <= i < records.len(),
        records[i].address.eligible(),
        records[i].fps.len() > 0,
    ensures
        ingest_seq(v, records).has_key(records[i].address.natural_key()),
    decreases records.len(),
{
    let w = ingest_one(v, records[0].address, records[0].rank, records[0].fps);
    if i == 0 {
        lemma_ingest_one_registers(v, records[0].address, records[0].rank, records[0].fps);
        lemma_ingest_seq_monotone(w, records.drop_first(), records[0].address.natural_key());
    } else {
        assert(records.drop_first()[i - 1] == records[i]);
        lemma_ingest_seq_registers(w, records.drop_first(), i - 1);
    }
}

/// A stream whose records are each dropped or already keyed changes
/// nothing.
proof fn lemma_ingest_seq_noop(v: DbHashesV, records: Seq<RecordV>)
    requires
        forall|i: int|
            0 <= i < records.len() ==> !(#[trigger] records[i]).address.eligible()
                || records[i].fps.len() == 0 || v.has_key(records[i].address.natural_key()),
    ensures
        ingest_seq(v, records) == v,
    decreases records.len(),
{
    if records.len() > 0 {
        let r = records[0];
        assert(ingest_one(v, r.address, r.rank, r.fps) == v);
        assert forall|i: int|
            0 <= i < records.drop_first().len() implies !(#[trigger] records.drop_first()[
        i]).address.eligible() || records.drop_first()[i].fps.len() == 0 || v.has_key(
            records.drop_first()[i].address.natural_key(),
        ) by {
            assert(records.drop_first()[i] == records[i + 1]);
        }
        lemma_ingest_seq_noop(v, records.drop_first());
    }
}

/// Law: ingest is idempotent. Ingesting a stream of records twice leaves
/// the store exactly as ingesting it once: the natural-key constraint
/// turns every repeat into a refused insert.
pub proof fn lemma_ingest_idempotent(v: DbHashesV, records: Seq<RecordV>)
    ensures
        ingest_seq(ingest_seq(v, records), records) == ingest_seq(v, records),
{
    let w = ingest_seq(v, records);
    assert forall|i: int|
        0 <= i < records.len() implies !(#[trigger] records[i]).address.eligible()
        || records[i].fps.len() == 0 || w.has_key(records[i].address.natural_key()) by {
        if records[i].address.eligible() && records[i].fps.len() > 0 {
            lemma_ingest_seq_registers(v, records, i);
        }
    }
    lemma_ingest_seq_noop(w, records);
}

/// Strictly better rank order: higher rank, or equal rank and higher id.
pub open spec fn group_key_gt(a: HashIterItemV, b: HashIterItemV) -> bool {
    a.rank > b.rank || (a.rank == b.rank && a.id > b.id)
}

/// The rank order of group entries as a function value.
pub open spec fn group_key_ge_fn() -> spec_fn(HashIterItemV, HashIterItemV) -> bool {
    |a: HashIterItemV, b: HashIterItemV| group_key_ge(a, b)
}

/// A deleted id is justified: some group entry carries it, and that
/// entry duplicates a kept entry of strictly better `(rank, id)`.
pub open spec fn deleted_has_better_kept(
    s: Seq<HashIterItemV>,
    facts: Seq<PairFact>,
    d: i64,
) -> bool {
    exists|i: int, k: int|
        0 <= i < s.len() && 0 <= k < resolve_sorted_spec(s, facts).kept.len() && (#[trigger] s[i]).id
            == d && is_duplicate_spec(
            s[i].address,
            (#[trigger] resolve_sorted_spec(s, facts).kept[k]).address,
            lookup_ctx(facts, s[i].id, resolve_sorted_spec(s, facts).kept[k].id),
        ) && group_key_gt(resolve_sorted_spec(s, facts).kept[k], s[i])
}

/// What resolution does to a rank-ordered group of entries with distinct
/// ids: kept and deleted partition the group; every deleted entry
/// duplicates a kept entry of strictly better `(rank, id)`; and no two
/// kept entries duplicate each other.
#[verifier::rlimit(60)]
pub proof fn lemma_resolve_sorted_props(s: Seq<HashIterItemV>, facts: Seq<PairFact>)
    requires
        vstd::relations::sorted_by(s, group_key_ge_fn()),
        forall|i: int, j: int| 0 <= i < j < s.len() ==> s[i].id != s[j].id,
    ensures
        resolve_sorted_spec(s, facts).kept.len() + resolve_sorted_spec(s, facts).deleted.len()
            == s.len(),
        forall|k: int|
            0 <= k < resolve_sorted_spec(s, facts).kept.len() ==> s.contains(
                #[trigger] resolve_sorted_spec(s, facts).kept[k],
            ),
        forall|i: int|
            0 <= i < s.len() ==> resolve_sorted_spec(s, facts).kept.contains(#[trigger] s[i])
                || resolve_sorted_spec(s, facts).deleted.contains(s[i].id),
        forall|j: int|
            0 <= j < resolve_sorted_spec(s, facts).deleted.len() ==> deleted_has_better_kept(
                s,
                facts,
                #[trigger] resolve_sorted_spec(s, facts).deleted[j],
            ),
        forall|k1: int, k2: int|
            0 <= k1 < k2 < resolve_sorted_spec(s, facts).kept.len() ==> !is_duplicate_spec(
                (#[trigger] resolve_sorted_spec(s, facts).kept[k2]).address,
                (#[trigger] resolve_sorted_spec(s, facts).kept[k1]).address,
                lookup_ctx(
                    facts,
                    resolve_sorted_spec(s, facts).kept[k2].id,
                    resolve_sorted_spec(s, facts).kept[k1].id,
                ),
            ),
    decreases s.len(),
{
    if s.len() > 0 {
        let prev_s = s.drop_last();
        let it = s.last();
        let prev = resolve_sorted_spec(prev_s, facts);
        let out = resolve_sorted_spec(s, facts);
        lemma_resolve_sorted_props(prev_s, facts);
        assert forall|k: int| 0 <= k < prev.kept.len() implies s.contains(
            #[trigger] prev.kept[k],
        ) by {
            assert(prev_s.contains(prev.kept[k]));
            let a = choose|a: int| 0 <= a < prev_s.len() && prev_s[a] == prev.kept[k];
            assert(s[a] == prev.kept[k]);
        }
        if exists|k: int|
            0 <= k < prev.kept.len() && is_duplicate_spec(
                it.address,
                prev.kept[k].address,
                lookup_ctx(facts, it.id, prev.kept[k].id),
            ) {
            let k = choose|k: int|
                0 <= k < prev.kept.len() && is_duplicate_spec(
                    it.address,
                    prev.kept[k].address,
                    lookup_ctx(facts, it.id, prev.kept[k].id),
                );
            assert(prev_s.contains(prev.kept[k]));
            let a = choose|a: int| 0 <= a < prev_s.len() && prev_s[a] == prev.kept[k];
            assert(group_key_ge_fn()(s[a], s[s.len() - 1]));
            assert(s[a].id != it.id);
            assert(group_key_gt(prev.kept[k], it));
            assert forall|j: int| 0 <= j < out.deleted.len() implies deleted_has_better_kept(
                s,
                facts,
                #[trigger] out.deleted[j],
            ) by {
                if j < prev.deleted.len() {
                    assert(out.deleted[j] == prev.deleted[j]);
                    assert(deleted_has_better_kept(prev_s, facts, prev.deleted[j]));
                    let (i2, k2) = choose|i2: int, k2: int|
                        0 <= i2 < prev_s.len() && 0 <= k2 < prev.kept.len() && (
                        #[trigger] prev_s[i2]).id == prev.deleted[j] && is_duplicate_spec(
                            prev_s[i2].address,
                            (#[trigger] prev.kept[k2]).address,
                            lookup_ctx(facts, prev_s[i2].id, prev.kept[k2].id),
                        ) && group_key_gt(prev.kept[k2], prev_s[i2]);
                    assert(s[i2] == prev_s[i2]);
                    assert(out.kept[k2] == prev.kept[k2]);
                    assert(0 <= i2 < s.len() && 0 <= k2 < out.kept.len() && s[i2].id
                        == out.deleted[j] && is_duplicate_spec(
                        s[i2].address,
                        out.kept[k2].address,
                        lookup_ctx(facts, s[i2].id, out.kept[k2].id),
                    ) && group_key_gt(out.kept[k2], s[i2]));
                } else {
                    assert(out.deleted[j] == it.id);
                    assert(s[s.len() - 1].id == it.id);
                    assert(0 <= s.len() - 1 < s.len() && 0 <= k < out.kept.len() && s[s.len()
                        - 1].id == out.deleted[j] && is_duplicate_spec(
                        s[s.len() - 1].address,
                        out.kept[k].address,
                        lookup_ctx(facts, s[s.len() - 1].id, out.kept[k].id),
                    ) && group_key_gt(out.kept[k], s[s.len() - 1]));
                }
            }
            assert forall|i: int| 0 <= i < s.len() implies out.kept.contains(#[trigger] s[i])
                || out.deleted.contains(s[i].id) by {
                if i < s.len() - 1 {
                    assert(prev_s[i] == s[i]);
                    if prev.kept.contains(prev_s[i]) {
                    } else {
                        assert(prev.deleted.contains(prev_s[i].id));
                        let j = choose|j: int|
                            0 <= j < prev.deleted.len() && prev.deleted[j] == prev_s[i].id;
                        assert(out.deleted[j] == s[i].id);
                        assert(out.deleted.contains(s[i].id));
                    }
                } else {
                    assert(out.deleted[out.deleted.len() - 1] == it.id);
                    assert(out.deleted.contains(s[i].id));
                }
            }
        } else {
            assert(out.kept == prev.kept.push(it));
            assert forall|k: int| 0 <= k < out.kept.len() implies s.contains(
                #[trigger] out.kept[k],
            ) by {
                if k < prev.kept.len() {
                    assert(out.kept[k] == prev.kept[k]);
                } else {
                    assert(out.kept[k] == it);
                    assert(s[s.len() - 1] == it);
                }
            }
            assert forall|i: int| 0 <= i < s.len() implies out.kept.contains(#[trigger] s[i])
                || out.deleted.contains(s[i].id) by {
                if i < s.len() - 1 {
                    assert(prev_s[i] == s[i]);
                    if prev.kept.contains(prev_s[i]) {
                        let k = choose|k: int|
                            0 <= k < prev.kept.len() && prev.kept[k] == prev_s[i];
                        assert(out.kept[k] == s[i]);
                        assert(out.kept.contains(s[i]));
                    }
                } else {
                    assert(out.kept[out.kept.len() - 1] == it);
                    assert(out.kept.contains(s[i]));
                }
            }
            assert forall|j: int| 0 <= j < out.deleted.len() implies deleted_has_better_kept(
                s,
                facts,
                #[trigger] out.deleted[j],
            ) by {
                assert(out.deleted[j] == prev.deleted[j]);
                assert(deleted_has_better_kept(prev_s, facts, prev.deleted[j]));
                let (i2, k2) = choose|i2: int, k2: int|
                    0 <= i2 < prev_s.len() && 0 <= k2 < prev.kept.len() && (
                    #[trigger] prev_s[i2]).id == prev.deleted[j] && is_duplicate_spec(
                        prev_s[i2].address,
                        (#[trigger] prev.kept[k2]).address,
                        lookup_ctx(facts, prev_s[i2].id, prev.kept[k2].id),
                    ) && group_key_gt(prev.kept[k2], prev_s[i2]);
                assert(s[i2] == prev_s[i2]);
                assert(out.kept[k2] == prev.kept[k2]);
                assert(0 <= i2 < s.len() && 0 <= k2 < out.kept.len() && s[i2].id
                    == out.deleted[j] && is_duplicate_spec(
                    s[i2].address,
                    out.kept[k2].address,
                    lookup_ctx(facts, s[i2].id, out.kept[k2].id),
                ) && group_key_gt(out.kept[k2], s[i2]));
            }
            assert forall|k1: int, k2: int| 0 <= k1 < k2 < out.kept.len() implies !is_duplicate_spec(
                (#[trigger] out.kept[k2]).address,
                (#[trigger] out.kept[k1]).address,
                lookup_ctx(facts, out.kept[k2].id, out.kept[k1].id),
            ) by {
                if k2 < prev.kept.len() {
                    assert(out.kept[k1] == prev.kept[k1] && out.kept[k2] == prev.kept[k2]);
                } else {
                    assert(out.kept[k2] == it && out.kept[k1] == prev.kept[k1]);
                }
            }
        }
    }
}

/// Law: on a duplicate-free group nothing is deleted and every entry is
/// kept, in order.
pub proof fn lemma_resolver_complete(s: Seq<HashIterItemV>, facts: Seq<PairFact>)
    requires
        forall|i: int, j: int| 0 <= i < j < s.len() ==> s[i].id != s[j].id,
        forall|i: int, j: int|
            0 <= i < s.len() && 0 <= j < s.len() && i != j ==> !is_duplicate_spec(
                (#[trigger] s[i]).address,
                (#[trigger] s[j]).address,
                lookup_ctx(facts, s[i].id, s[j].id),
            ),
    ensures
        resolve_sorted_spec(s, facts).deleted == Seq::<i64>::empty(),
        resolve_sorted_spec(s, facts).kept == s,
    decreases s.len(),
{
    if s.len() > 0 {
        let prev_s = s.drop_last();
        let it = s.last();
        lemma_resolver_complete(prev_s, facts);
        let prev = resolve_sorted_spec(prev_s, facts);
        assert(prev.kept == prev_s);
        if exists|k: int|
            0 <= k < prev.kept.len() && is_duplicate_spec(
                it.address,
                prev.kept[k].address,
                lookup_ctx(facts, it.id, prev.kept[k].id),
            ) {
            let k = choose|k: int|
                0 <= k < prev.kept.len() && is_duplicate_spec(
                    it.address,
                    prev.kept[k].address,
                    lookup_ctx(facts, it.id, prev.kept[k].id),
                );
            assert(prev.kept[k] == s[k]);
            assert(is_duplicate_spec(
                s[s.len() - 1].address,
                s[k].address,
                lookup_ctx(facts, s[s.len() - 1].id, s[k].id),
            ));
            assert(false);
        }
        assert(resolve_sorted_spec(s, facts).kept =~= s);
    } else {
        assert(resolve_sorted_spec(s, facts).kept =~= s);
    }
}

/// Law: rank maximality. An entry that outranks every entry it
/// duplicates — in particular the best entry of each equivalence class
/// of duplicates — survives resolution.
pub proof fn lemma_resolver_rank_maximal(s: Seq<HashIterItemV>, facts: Seq<PairFact>, i: int)
    requires
        vstd::relations::sorted_by(s, group_key_ge_fn()),
        forall|a: int, b: int| 0 <= a < b < s.len() ==> s[a].id != s[b].id,
        0 <= i < s.len(),
        forall|j: int|
            0 <= j < s.len() && j != i && is_duplicate_spec(
                (#[trigger] s[i]).address,
                (#[trigger] s[j]).address,
                lookup_ctx(facts, s[i].id, s[j].id),
            ) ==> group_key_gt(s[i], s[j]),
    ensures
        resolve_sorted_spec(s, facts).kept.contains(s[i]),
{
    lemma_resolve_sorted_props(s, facts);
    let out = resolve_sorted_spec(s, facts);
    if !out.kept.contains(s[i]) {
        assert(out.deleted.contains(s[i].id));
        let j = choose|j: int| 0 <= j < out.deleted.len() && out.deleted[j] == s[i].id;
        assert(deleted_has_better_kept(s, facts, out.deleted[j]));
        let (i2, k2) = choose|i2: int, k2: int|
            0 <= i2 < s.len() && 0 <= k2 < out.kept.len() && (#[trigger] s[i2]).id
                == out.deleted[j] && is_duplicate_spec(
                s[i2].address,
                (#[trigger] out.kept[k2]).address,
                lookup_ctx(facts, s[i2].id, out.kept[k2].id),
            ) && group_key_gt(out.kept[k2], s[i2]);
        assert(i2 == i) by {
            if i2 < i {
            } else if i < i2 {
            }
        }
        assert(s.contains(out.kept[k2]));
        let a = choose|a: int| 0 <= a < s.len() && s[a] == out.kept[k2];
        assert(a != i) by {
            if a == i {
                assert(group_key_gt(s[i], s[i]));
            }
        }
        crate::dedupe::lemma_is_duplicate_symmetric(
            s[i].address,
            s[a].address,
            lookup_ctx(facts, s[i].id, s[a].id),
        );
        assert(is_duplicate_spec(
            s[i].address,
            s[a].address,
            lookup_ctx(facts, s[i].id, s[a].id),
        ));
        assert(group_key_gt(s[i], s[a]));
        assert(group_key_gt(s[a], s[i]));
        assert(false);
    }
}


/// Ordering a group for resolution keeps exactly its entries, ranks them
/// best `(rank, id)` first, and keeps ids distinct.
pub proof fn lemma_sort_group_props(s: Seq<HashIterItemV>)
    requires
        forall|i: int, j: int| 0 <= i < j < s.len() ==> s[i].id != s[j].id,
    ensures
        sort_group_spec(s).len() == s.len(),
        vstd::relations::sorted_by(sort_group_spec(s), group_key_ge_fn()),
        forall|i: int, j: int|
            0 <= i < j < sort_group_spec(s).len() ==> sort_group_spec(s)[i].id
                != sort_group_spec(s)[j].id,
        forall|t: int| 0 <= t < sort_group_spec(s).len() ==> s.contains(#[trigger] sort_group_spec(s)[t]),
        forall|i: int| 0 <= i < s.len() ==> sort_group_spec(s).contains(#[trigger] s[i]),
{
    broadcast use vstd::seq_lib::group_to_multiset_ensures;

    let pairs = s.map_values(|it: HashIterItemV| (it.id, it.rank));
    let sorted = pairs.sort_by(crate::db_hashes::pair_le_fn());
    let rev = sorted.reverse();
    let out = sort_group_spec(s);
    crate::db_hashes::lemma_pair_le_total();
    pairs.lemma_sort_by_ensures(crate::db_hashes::pair_le_fn());
    sorted.lemma_reverse_to_multiset();
    assert(out == rev.map_values(|p: (i64, i64)| item_with_id(s, p.0)));
    let m = s.len();
    assert(pairs.len() == m);
    assert(sorted.len() == sorted.to_multiset().len());
    assert(pairs.len() == pairs.to_multiset().len());
    assert(sorted.len() == m);
    assert(rev.len() == m);
    assert(out.len() == m);
    assert forall|i: int, j: int| 0 <= i < j < pairs.len() implies pairs[i] != pairs[j] by {
        assert(pairs[i].0 == s[i].id && pairs[j].0 == s[j].id);
    }
    crate::db_hashes::lemma_multiset_eq_distinct(pairs, sorted);
    assert forall|i: int, j: int| 0 <= i < j < rev.len() implies rev[i] != rev[j] by {
        assert(rev[i] == sorted[m - 1 - i]);
        assert(rev[j] == sorted[m - 1 - j]);
    }
    assert forall|t: int| 0 <= t < m implies s.contains(#[trigger] out[t]) && out[t]
        == item_with_id(s, rev[t].0) && out[t].id == rev[t].0 && out[t].rank == rev[t].1 by {
        assert(rev.contains(rev[t]));
        assert(rev.to_multiset().count(rev[t]) > 0);
        assert(pairs.to_multiset().count(rev[t]) > 0);
        assert(pairs.contains(rev[t]));
        let a = choose|a: int| 0 <= a < pairs.len() && pairs[a] == rev[t];
        assert(s[a].id == rev[t].0 && s[a].rank == rev[t].1);
        let k = choose|k: int| 0 <= k < s.len() && s[k].id == rev[t].0;
        assert(k == a) by {
            if k < a {
            } else if a < k {
            }
        }
        assert(out[t] == s[a]);
    }
    assert forall|t1: int, t2: int| 0 <= t1 < t2 < m implies group_key_ge_fn()(
        out[t1],
        out[t2],
    ) by {
        assert(rev[t1] == sorted[m - 1 - t1]);
        assert(rev[t2] == sorted[m - 1 - t2]);
        assert(crate::db_hashes::pair_le_fn()(sorted[m - 1 - t2], sorted[m - 1 - t1]));
        assert(out[t1].id == rev[t1].0 && out[t1].rank == rev[t1].1);
        assert(out[t2].id == rev[t2].0 && out[t2].rank == rev[t2].1);
    }
    assert forall|i: int, j: int| 0 <= i < j < m implies out[i].id != out[j].id by {
        if out[i].id == out[j].id {
            assert(rev[i].0 == rev[j].0);
            assert(pairs.contains(rev[i]));
            assert(pairs.contains(rev[j]));
            let a = choose|a: int| 0 <= a < pairs.len() && pairs[a] == rev[i];
            let b = choose|b: int| 0 <= b < pairs.len() && pairs[b] == rev[j];
            assert(s[a].id == rev[i].0 && s[b].id == rev[j].0);
            assert(a == b) by {
                if a < b {
                } else if b < a {
                }
            }
            assert(rev[i] == rev[j]);
            assert(false);
        }
    }
    assert forall|i: int| 0 <= i < s.len() implies out.contains(#[trigger] s[i]) by {
        assert(pairs[i] == (s[i].id, s[i].rank));
        assert(pairs.contains(pairs[i]));
        assert(pairs.to_multiset().count(pairs[i]) > 0);
        assert(rev.to_multiset().count(pairs[i]) > 0);
        assert(rev.contains(pairs[i]));
        let t = choose|t: int| 0 <= t < rev.len() && rev[t] == pairs[i];
        assert(out[t].id == rev[t].0);
        let k = choose|k: int| 0 <= k < s.len() && s[k].id == rev[t].0;
        assert(out[t] == item_with_id(s, rev[t].0));
        assert(s[k].id == s[i].id);
        assert(k == i) by {
            if k < i {
            } else if i < k {
            }
        }
        assert(out[t] == s[i]);
    }
}

/// Law: completeness on duplicate-free input, at the group level. When no
/// two entries of a collision group (of tractable size) are duplicates,
/// its resolution deletes nothing, so each of them survives.
pub proof fn lemma_group_dupfree_nothing_deleted(s: Seq<HashIterItemV>, facts: Seq<PairFact>)
    requires
        forall|i: int, j: int| 0 <= i < j < s.len() ==> s[i].id != s[j].id,
        s.len() <= MAX_PACK_SIZE,
        forall|i: int, j: int|
            0 <= i < s.len() && 0 <= j < s.len() && i != j ==> !is_duplicate_spec(
                (#[trigger] s[i]).address,
                (#[trigger] s[j]).address,
                lookup_ctx(facts, s[i].id, s[j].id),
            ),
    ensures
        resolve_group_spec(s, facts) == Seq::<i64>::empty(),
{
    lemma_sort_group_props(s);
    let t = sort_group_spec(s);
    assert forall|i: int, j: int|
        0 <= i < t.len() && 0 <= j < t.len() && i != j implies !is_duplicate_spec(
        (#[trigger] t[i]).address,
        (#[trigger] t[j]).address,
        lookup_ctx(facts, t[i].id, t[j].id),
    ) by {
        assert(s.contains(t[i]));
        assert(s.contains(t[j]));
        let a = choose|a: int| 0 <= a < s.len() && s[a] == t[i];
        let b = choose|b: int| 0 <= b < s.len() && s[b] == t[j];
        assert(a != b) by {
            if a == b {
                assert(t[i].id == t[j].id);
                if i < j {
                } else if j < i {
                }
            }
        }
        assert(!is_duplicate_spec(s[a].address, s[b].address, lookup_ctx(facts, s[a].id, s[b].id)));
    }
    lemma_resolver_complete(t, facts);
}


/// The output records of a list of addresses, in order.
fn records_of(addrs: &Vec<Address>) -> (records: Vec<crate::openaddress::OpenAddress>)
    ensures
        records@.map_values(|rec: crate::openaddress::OpenAddress| rec@) == addrs@.map_values(
            |a: Address| a@,
        ).map_values(|a: AddressV| crate::openaddress::record_of_address_spec(a)),
{
    let ghost av = addrs@.map_values(|a: Address| a@);
    let mut records: Vec<crate::openaddress::OpenAddress> = Vec::new();
    let n = addrs.len();
    for i in 0..n
        invariant
            n == addrs@.len(),
            av == addrs@.map_values(|a: Address| a@),
            records@.map_values(|rec: crate::openaddress::OpenAddress| rec@) =~= av.take(
                i as int,
            ).map_values(|a: AddressV| crate::openaddress::record_of_address_spec(a)),
    {
        let rec = crate::openaddress::OpenAddress::from_address(&addrs[i]);
        proof {
            assert(av[i as int] == addrs@[i as int]@);
            assert(rec@ == crate::openaddress::record_of_address_spec(av[i as int]));
            assert(av.take(i + 1) =~= av.take(i as int).push(av[i as int]));
            assert(av.take(i + 1).map_values(
                |a: AddressV| crate::openaddress::record_of_address_spec(a),
            ) =~= av.take(i as int).map_values(
                |a: AddressV| crate::openaddress::record_of_address_spec(a),
            ).push(crate::openaddress::record_of_address_spec(av[i as int])));
        }
        records.push(rec);
    }
    proof {
        assert(av.take(n as int) =~= av);
    }
    records
}

impl Deduplicator {
    /// The surviving addresses as the output CSV: a header row, then one
    /// row per surviving address in storage order, absent fields written
    /// as the empty string.
    pub fn openaddresses_dump(&self) -> (r: Vec<u8>)
        requires
            self.wf(),
        ensures
            r@ == crate::openaddress::dump_bytes_spec(
                self@.surviving().map_values(
                    |a: AddressV| crate::openaddress::record_of_address_spec(a),
                ),
            ),
    {
        let addrs = self.addresses();
        let records = records_of(&addrs);
        crate::openaddress::dump_records(&records)
    }
}


impl Deduplicator {
    /// The rows of one partition of the collision scan, for callers that
    /// compute the outside comparison inputs of the candidate pairs.
    pub fn get_collisions_iter_for_parts(&self, part: usize, nb_parts: usize) -> (r: Vec<
        HashIterItem,
    >)
        requires
            self.wf(),
            part < nb_parts,
            nb_parts <= 0x7fff_ffff,
        ensures
            r@.map_values(|it: HashIterItem| it@) == collision_items(
                self@,
                part as int,
                nb_parts as int,
            ),
    {
        self.db.get_collisions_iter_for_parts(part, nb_parts)
    }
}


/// Whether a collision row carries a stored address: some store entry
/// has its id, address and rank.
pub open spec fn item_is_store_row(v: DbHashesV, it: HashIterItemV) -> bool {
    exists|k: int|
        0 <= k < v.addresses.len() && (#[trigger] v.addresses[k]).id == it.id && v.addresses[
            k
        ].address == it.address && v.addresses[k].rank == it.rank
}

/// Every row of a collision scan carries a stored address.
proof fn lemma_collision_items_are_store_rows(v: DbHashesV, part: int, nb_parts: int, t: int)
    requires
        v.inv(),
        1 <= nb_parts,
        0 <= t < collision_items(v, part, nb_parts).len(),
    ensures
        item_is_store_row(v, collision_items(v, part, nb_parts)[t]),
{
    let cp = crate::db_hashes::collision_pairs(v, part, nb_parts);
    let it = collision_items(v, part, nb_parts)[t];
    assert(it == crate::db_hashes::item_of(v, cp[t]));
    assert(cp.contains(cp[t]));
    crate::db_hashes::lemma_collision_pairs_contains(v, part, nb_parts, cp[t]);
    assert(v.hashes.contains(cp[t]));
    let a = choose|a: int| 0 <= a < v.hashes.len() && v.hashes[a] == cp[t];
    assert(v.has_id(v.hashes[a].0));
    let k = choose|k: int| 0 <= k < v.addresses.len() && v.addresses[k].id == cp[t].0;
    assert(v.addresses[k].id == it.id && v.addresses[k].address == it.address && v.addresses[
        k
    ].rank == it.rank);
}

/// A scan whose rows carry pairwise non-duplicate stored addresses sends
/// nothing to deletion.
proof fn lemma_deleted_of_items_empty(v: DbHashesV, items: Seq<HashIterItemV>, facts: Seq<PairFact>)
    requires
        items.len() <= MAX_PACK_SIZE,
        forall|t: int| 0 <= t < items.len() ==> item_is_store_row(v, #[trigger] items[t]),
        forall|a: int, b: int|
            0 <= a < b < items.len() && (#[trigger] items[a]).hash == (#[trigger] items[b]).hash
                ==> items[a].id != items[b].id,
        forall|i: int, j: int|
            0 <= i < v.addresses.len() && 0 <= j < v.addresses.len() && i != j
                ==> !is_duplicate_spec(
                (#[trigger] v.addresses[i]).address,
                (#[trigger] v.addresses[j]).address,
                lookup_ctx(facts, v.addresses[i].id, v.addresses[j].id),
            ),
    ensures
        deleted_of_items(items, facts) == Seq::<i64>::empty(),
    decreases items.len(),
{
    if items.len() == 0 {
    } else {
        lemma_run_len_char(items);
        let l = run_len(items);
        let group = items.take(l);
        assert forall|a: int, b: int| 0 <= a < b < group.len() implies group[a].id
            != group[b].id by {
            assert(group[a] == items[a] && group[b] == items[b]);
            assert(items[a].hash == items[0].hash && items[b].hash == items[0].hash);
        }
        assert forall|a: int, b: int|
            0 <= a < group.len() && 0 <= b < group.len() && a != b implies !is_duplicate_spec(
            (#[trigger] group[a]).address,
            (#[trigger] group[b]).address,
            lookup_ctx(facts, group[a].id, group[b].id),
        ) by {
            assert(item_is_store_row(v, items[a]));
            assert(item_is_store_row(v, items[b]));
            let ka = choose|k: int|
                0 <= k < v.addresses.len() && (#[trigger] v.addresses[k]).id == items[a].id
                    && v.addresses[k].address == items[a].address && v.addresses[k].rank
                    == items[a].rank;
            let kb = choose|k: int|
                0 <= k < v.addresses.len() && (#[trigger] v.addresses[k]).id == items[b].id
                    && v.addresses[k].address == items[b].address && v.addresses[k].rank
                    == items[b].rank;
            assert(ka != kb) by {
                if ka == kb {
                    assert(items[a].id == items[b].id);
                    assert(items[a].hash == items[0].hash && items[b].hash == items[0].hash);
                }
            }
            assert(!is_duplicate_spec(
                v.addresses[ka].address,
                v.addresses[kb].address,
                lookup_ctx(facts, v.addresses[ka].id, v.addresses[kb].id),
            ));
        }
        lemma_group_dupfree_nothing_deleted(group, facts);
        let rest = items.skip(l);
        assert forall|t: int| 0 <= t < rest.len() implies item_is_store_row(
            v,
            #[trigger] rest[t],
        ) by {
            assert(rest[t] == items[t + l]);
        }
        assert forall|a: int, b: int|
            0 <= a < b < rest.len() && (#[trigger] rest[a]).hash == (#[trigger] rest[b]).hash
            implies rest[a].id != rest[b].id by {
            assert(rest[a] == items[a + l] && rest[b] == items[b + l]);
        }
        lemma_deleted_of_items_empty(v, rest, facts);
        assert(deleted_of_items(items, facts) =~= Seq::<i64>::empty());
    }
}

/// Law: completeness on duplicate-free input, over the whole store. When
/// no two stored addresses are duplicates under the comparison table,
/// the resolver marks nothing for deletion, whatever the partition
/// count, so every stored address survives. (Stated for stores whose
/// fingerprint table fits one resolution pack, so that no group is
/// force-deleted for size.)
pub proof fn lemma_dupfree_store_nothing_marked(v: DbHashesV, facts: Seq<PairFact>, nb_parts: int)
    requires
        v.inv(),
        1 <= nb_parts,
        v.hashes.len() <= MAX_PACK_SIZE,
        forall|i: int, j: int|
            0 <= i < v.addresses.len() && 0 <= j < v.addresses.len() && i != j
                ==> !is_duplicate_spec(
                (#[trigger] v.addresses[i]).address,
                (#[trigger] v.addresses[j]).address,
                lookup_ctx(facts, v.addresses[i].id, v.addresses[j].id),
            ),
    ensures
        deleted_upto(v, facts, nb_parts, nb_parts) == Seq::<i64>::empty(),
{
    lemma_deleted_upto_empty(v, facts, nb_parts, nb_parts);
}

/// The scans of the first `p` partitions of a duplicate-free store send
/// nothing to deletion.
proof fn lemma_deleted_upto_empty(v: DbHashesV, facts: Seq<PairFact>, nb_parts: int, p: int)
    requires
        v.inv(),
        1 <= nb_parts,
        p <= nb_parts,
        v.hashes.len() <= MAX_PACK_SIZE,
        forall|i: int, j: int|
            0 <= i < v.addresses.len() && 0 <= j < v.addresses.len() && i != j
                ==> !is_duplicate_spec(
                (#[trigger] v.addresses[i]).address,
                (#[trigger] v.addresses[j]).address,
                lookup_ctx(facts, v.addresses[i].id, v.addresses[j].id),
            ),
    ensures
        deleted_upto(v, facts, nb_parts, p) == Seq::<i64>::empty(),
    decreases p,
{
    if p > 0 {
        lemma_deleted_upto_empty(v, facts, nb_parts, p - 1);
        let items = collision_items(v, p - 1, nb_parts);
        assert(items.len() <= MAX_PACK_SIZE) by {
            broadcast use vstd::seq_lib::group_to_multiset_ensures;

            let pred = crate::db_hashes::collision_pred(v, p - 1, nb_parts);
            let f = v.hashes.filter(pred);
            crate::db_hashes::lemma_pair_le_total();
            f.lemma_sort_by_ensures(crate::db_hashes::pair_le_fn());
            v.hashes.lemma_filter_len(pred);
            assert(f.sort_by(crate::db_hashes::pair_le_fn()).to_multiset().len()
                == f.to_multiset().len());
            assert(f.sort_by(crate::db_hashes::pair_le_fn()).len() == f.sort_by(
                crate::db_hashes::pair_le_fn(),
            ).to_multiset().len());
            assert(f.len() == f.to_multiset().len());
        }
        assert forall|t: int| 0 <= t < items.len() implies item_is_store_row(
            v,
            #[trigger] items[t],
        ) by {
            lemma_collision_items_are_store_rows(v, p - 1, nb_parts, t);
        }
        assert forall|a: int, b: int|
            0 <= a < b < items.len() && (#[trigger] items[a]).hash == (#[trigger] items[b]).hash
            implies items[a].id != items[b].id by {
            lemma_collision_items_distinct(v, p - 1, nb_parts, a, b);
        }
        lemma_deleted_of_items_empty(v, items, facts);
        assert(deleted_upto(v, facts, nb_parts, p) =~= Seq::<i64>::empty());
    }
}


/// A filter that keeps every element returns the sequence itself.
proof fn lemma_filter_keeps_all<A>(s: Seq<A>, p: spec_fn(A) -> bool)
    requires
        forall|i: int| 0 <= i < s.len() ==> p(#[trigger] s[i]),
    ensures
        s.filter(p) == s,
    decreases s.len(),
{
    reveal(Seq::filter);
    if s.len() > 0 {
        assert(forall|i: int| 0 <= i < s.drop_last().len() ==> #[trigger] s.drop_last()[i] == s[i]);
        lemma_filter_keeps_all(s.drop_last(), p);
        assert(s.filter(p) =~= s);
    }
}

/// With no deletion marker, every stored address survives.
pub proof fn lemma_no_markers_all_survive(v: DbHashesV)
    requires
        v.to_delete == Set::<i64>::empty(),
    ensures
        v.surviving() == v.addresses.map_values(|sa: StoredAddressV| sa.address),
{
    let p = |sa: StoredAddressV| !v.to_delete.contains(sa.id);
    lemma_filter_keeps_all(v.addresses, p);
}

/// Law: completeness on duplicate-free input, composed through the
/// pipeline. Over a duplicate-free store with fresh markers, resolution
/// marks nothing — the marker set compute-duplicates produces is the
/// empty union — so after applying the markers every stored address
/// survives.
pub proof fn lemma_dupfree_survivors(v: DbHashesV, facts: Seq<PairFact>, nb_parts: int)
    requires
        v.inv(),
        1 <= nb_parts,
        v.hashes.len() <= MAX_PACK_SIZE,
        v.to_delete == Set::<i64>::empty(),
        forall|i: int, j: int|
            0 <= i < v.addresses.len() && 0 <= j < v.addresses.len() && i != j
                ==> !is_duplicate_spec(
                (#[trigger] v.addresses[i]).address,
                (#[trigger] v.addresses[j]).address,
                lookup_ctx(facts, v.addresses[i].id, v.addresses[j].id),
            ),
    ensures
        ({
            let marked = DbHashesV {
                to_delete: v.to_delete.union(
                    deleted_upto(v, facts, nb_parts, nb_parts).to_set(),
                ),
                ..v
            };
            marked.surviving() == v.addresses.map_values(|sa: StoredAddressV| sa.address)
        }),
{
    lemma_dupfree_store_nothing_marked(v, facts, nb_parts);
    let marked = DbHashesV {
        to_delete: v.to_delete.union(deleted_upto(v, facts, nb_parts, nb_parts).to_set()),
        ..v
    };
    assert(deleted_upto(v, facts, nb_parts, nb_parts).to_set() =~= Set::<i64>::empty());
    assert(marked.to_delete =~= Set::<i64>::empty());
    lemma_no_markers_all_survive(marked);
}

/// Law: re-ingesting the same records changes no downstream outcome:
/// the resolver marks the same ids and the same addresses survive,
/// because the second ingest pass leaves the store untouched.
pub proof fn lemma_reingest_same_resolution(
    v: DbHashesV,
    records: Seq<RecordV>,
    facts: Seq<PairFact>,
    nb_parts: int,
)
    ensures
        deleted_upto(ingest_seq(ingest_seq(v, records), records), facts, nb_parts, nb_parts)
            == deleted_upto(ingest_seq(v, records), facts, nb_parts, nb_parts),
        ingest_seq(ingest_seq(v, records), records).surviving() == ingest_seq(
            v,
            records,
        ).surviving(),
{
    lemma_ingest_idempotent(v, records);
}


/// An id the resolver marks is justified store-wide: some store row
/// carries it and duplicates another store row of strictly better
/// `(rank, id)`.
pub open spec fn marked_id_justified(v: DbHashesV, facts: Seq<PairFact>, d: i64) -> bool {
    exists|i: int, j: int|
        0 <= i < v.addresses.len() && 0 <= j < v.addresses.len() && (#[trigger] v.addresses[
            i
        ]).id == d && is_duplicate_spec(
            v.addresses[i].address,
            (#[trigger] v.addresses[j]).address,
            lookup_ctx(facts, v.addresses[i].id, v.addresses[j].id),
        ) && (v.addresses[j].rank > v.addresses[i].rank || (v.addresses[j].rank == v.addresses[
            i
        ].rank && v.addresses[j].id > v.addresses[i].id))
}

/// Every id a tractable group of store rows sends to deletion is
/// justified store-wide.
proof fn lemma_group_deleted_justified(
    v: DbHashesV,
    group: Seq<HashIterItemV>,
    facts: Seq<PairFact>,
    t: int,
)
    requires
        group.len() <= MAX_PACK_SIZE,
        forall|a: int, b: int| 0 <= a < b < group.len() ==> group[a].id != group[b].id,
        forall|a: int| 0 <= a < group.len() ==> item_is_store_row(v, #[trigger] group[a]),
        0 <= t < resolve_group_spec(group, facts).len(),
    ensures
        marked_id_justified(v, facts, resolve_group_spec(group, facts)[t]),
{
    lemma_sort_group_props(group);
    let sorted = sort_group_spec(group);
    lemma_resolve_sorted_props(sorted, facts);
    let out = resolve_sorted_spec(sorted, facts);
    let d = resolve_group_spec(group, facts)[t];
    assert(out.deleted[t] == d);
    assert(deleted_has_better_kept(sorted, facts, d));
    let (i2, k2) = choose|i2: int, k2: int|
        0 <= i2 < sorted.len() && 0 <= k2 < out.kept.len() && (#[trigger] sorted[i2]).id == d
            && is_duplicate_spec(
            sorted[i2].address,
            (#[trigger] out.kept[k2]).address,
            lookup_ctx(facts, sorted[i2].id, out.kept[k2].id),
        ) && group_key_gt(out.kept[k2], sorted[i2]);
    assert(group.contains(sorted[i2]));
    assert(sorted.contains(out.kept[k2]));
    let w = choose|w: int| 0 <= w < sorted.len() && sorted[w] == out.kept[k2];
    assert(group.contains(sorted[w]));
    let ga = choose|ga: int| 0 <= ga < group.len() && group[ga] == sorted[i2];
    let gb = choose|gb: int| 0 <= gb < group.len() && group[gb] == out.kept[k2];
    assert(item_is_store_row(v, group[ga]));
    assert(item_is_store_row(v, group[gb]));
    let a = choose|k: int|
        0 <= k < v.addresses.len() && (#[trigger] v.addresses[k]).id == group[ga].id
            && v.addresses[k].address == group[ga].address && v.addresses[k].rank == group[
            ga
        ].rank;
    let b = choose|k: int|
        0 <= k < v.addresses.len() && (#[trigger] v.addresses[k]).id == group[gb].id
            && v.addresses[k].address == group[gb].address && v.addresses[k].rank == group[
            gb
        ].rank;
    assert(v.addresses[a].id == d);
    assert(is_duplicate_spec(
        v.addresses[a].address,
        v.addresses[b].address,
        lookup_ctx(facts, v.addresses[a].id, v.addresses[b].id),
    ));
    assert(v.addresses[b].rank > v.addresses[a].rank || (v.addresses[b].rank == v.addresses[
        a
    ].rank && v.addresses[b].id > v.addresses[a].id));
}

/// Every id a scan of tractable store rows sends to deletion is
/// justified store-wide.
proof fn lemma_items_deleted_justified(
    v: DbHashesV,
    items: Seq<HashIterItemV>,
    facts: Seq<PairFact>,
    t: int,
)
    requires
        items.len() <= MAX_PACK_SIZE,
        forall|a: int, b: int|
            0 <= a < b < items.len() && (#[trigger] items[a]).hash == (#[trigger] items[b]).hash
                ==> items[a].id != items[b].id,
        forall|a: int| 0 <= a < items.len() ==> item_is_store_row(v, #[trigger] items[a]),
        0 <= t < deleted_of_items(items, facts).len(),
    ensures
        marked_id_justified(v, facts, deleted_of_items(items, facts)[t]),
    decreases items.len(),
{
    lemma_run_len_char(items);
    let l = run_len(items);
    let group = items.take(l);
    let first = resolve_group_spec(group, facts);
    let rest = items.skip(l);
    assert(deleted_of_items(items, facts) == first + deleted_of_items(rest, facts));
    assert forall|a: int, b: int| 0 <= a < b < group.len() implies group[a].id != group[b].id by {
        assert(group[a] == items[a] && group[b] == items[b]);
        assert(items[a].hash == items[0].hash && items[b].hash == items[0].hash);
    }
    assert(forall|a: int| 0 <= a < group.len() ==> #[trigger] group[a] == items[a]);
    if t < first.len() {
        lemma_group_deleted_justified(v, group, facts, t);
        assert(deleted_of_items(items, facts)[t] == first[t]);
    } else {
        assert forall|a: int| 0 <= a < rest.len() implies item_is_store_row(
            v,
            #[trigger] rest[a],
        ) by {
            assert(rest[a] == items[a + l]);
        }
        assert forall|a: int, b: int|
            0 <= a < b < rest.len() && (#[trigger] rest[a]).hash == (#[trigger] rest[b]).hash
            implies rest[a].id != rest[b].id by {
            assert(rest[a] == items[a + l] && rest[b] == items[b + l]);
        }
        lemma_items_deleted_justified(v, rest, facts, t - first.len());
        assert(deleted_of_items(items, facts)[t] == deleted_of_items(rest, facts)[t
            - first.len()]);
    }
}

/// One partition's collision scan holds no more rows than the
/// fingerprint table.
proof fn lemma_collision_items_len(v: DbHashesV, part: int, nb_parts: int)
    ensures
        collision_items(v, part, nb_parts).len() <= v.hashes.len(),
{
    broadcast use vstd::seq_lib::group_to_multiset_ensures;

    let pred = crate::db_hashes::collision_pred(v, part, nb_parts);
    let f = v.hashes.filter(pred);
    crate::db_hashes::lemma_pair_le_total();
    f.lemma_sort_by_ensures(crate::db_hashes::pair_le_fn());
    v.hashes.lemma_filter_len(pred);
    assert(f.sort_by(crate::db_hashes::pair_le_fn()).to_multiset().len()
        == f.to_multiset().len());
    assert(f.sort_by(crate::db_hashes::pair_le_fn()).len() == f.sort_by(
        crate::db_hashes::pair_le_fn(),
    ).to_multiset().len());
    assert(f.len() == f.to_multiset().len());
}

/// Every id the scans of the first `p` partitions send to deletion is
/// justified store-wide.
proof fn lemma_upto_deleted_justified(
    v: DbHashesV,
    facts: Seq<PairFact>,
    nb_parts: int,
    p: int,
    t: int,
)
    requires
        v.inv(),
        1 <= nb_parts,
        p <= nb_parts,
        v.hashes.len() <= MAX_PACK_SIZE,
        0 <= t < deleted_upto(v, facts, nb_parts, p).len(),
    ensures
        marked_id_justified(v, facts, deleted_upto(v, facts, nb_parts, p)[t]),
    decreases p,
{
    assert(p > 0);
    let prefix = deleted_upto(v, facts, nb_parts, p - 1);
    let items = collision_items(v, p - 1, nb_parts);
    assert(deleted_upto(v, facts, nb_parts, p) == prefix + deleted_of_items(items, facts));
    if t < prefix.len() {
        lemma_upto_deleted_justified(v, facts, nb_parts, p - 1, t);
        assert(deleted_upto(v, facts, nb_parts, p)[t] == prefix[t]);
    } else {
        lemma_collision_items_len(v, p - 1, nb_parts);
        assert forall|a: int| 0 <= a < items.len() implies item_is_store_row(
            v,
            #[trigger] items[a],
        ) by {
            lemma_collision_items_are_store_rows(v, p - 1, nb_parts, a);
        }
        assert forall|a: int, b: int|
            0 <= a < b < items.len() && (#[trigger] items[a]).hash == (#[trigger] items[b]).hash
            implies items[a].id != items[b].id by {
            lemma_collision_items_distinct(v, p - 1, nb_parts, a, b);
        }
        lemma_items_deleted_justified(v, items, facts, t - prefix.len());
        assert(deleted_upto(v, facts, nb_parts, p)[t] == deleted_of_items(items, facts)[t
            - prefix.len()]);
    }
}

/// Law: every id the resolver marks for deletion names a store row that
/// duplicates another store row of strictly better `(rank, id)`. (Stated
/// for stores whose fingerprint table fits one resolution pack, so that
/// no group is force-deleted for size.)
pub proof fn lemma_marked_ids_justified(
    v: DbHashesV,
    facts: Seq<PairFact>,
    nb_parts: int,
    t: int,
)
    requires
        v.inv(),
        1 <= nb_parts,
        v.hashes.len() <= MAX_PACK_SIZE,
        0 <= t < deleted_upto(v, facts, nb_parts, nb_parts).len(),
    ensures
        marked_id_justified(v, facts, deleted_upto(v, facts, nb_parts, nb_parts)[t]),
{
    lemma_upto_deleted_justified(v, facts, nb_parts, nb_parts, t);
}

/// Law: rank maximality at the store level. A stored address that
/// outranks every stored address it duplicates — in particular the
/// `(rank, id)` maximum of each equivalence class of duplicates — is
/// never marked for deletion, whatever the partition count.
pub proof fn lemma_store_rank_maximal(
    v: DbHashesV,
    facts: Seq<PairFact>,
    nb_parts: int,
    i: int,
)
    requires
        v.inv(),
        1 <= nb_parts,
        v.hashes.len() <= MAX_PACK_SIZE,
        0 <= i < v.addresses.len(),
        forall|j: int|
            0 <= j < v.addresses.len() && j != i && is_duplicate_spec(
                (#[trigger] v.addresses[i]).address,
                (#[trigger] v.addresses[j]).address,
                lookup_ctx(facts, v.addresses[i].id, v.addresses[j].id),
            ) ==> (v.addresses[i].rank > v.addresses[j].rank || (v.addresses[i].rank
                == v.addresses[j].rank && v.addresses[i].id > v.addresses[j].id)),
    ensures
        !deleted_upto(v, facts, nb_parts, nb_parts).contains(v.addresses[i].id),
{
    let deleted = deleted_upto(v, facts, nb_parts, nb_parts);
    if deleted.contains(v.addresses[i].id) {
        let t = choose|t: int| 0 <= t < deleted.len() && deleted[t] == v.addresses[i].id;
        lemma_marked_ids_justified(v, facts, nb_parts, t);
        let (a, b) = choose|a: int, b: int|
            0 <= a < v.addresses.len() && 0 <= b < v.addresses.len() && (#[trigger] v.addresses[
                a
            ]).id == deleted[t] && is_duplicate_spec(
                v.addresses[a].address,
                (#[trigger] v.addresses[b]).address,
                lookup_ctx(facts, v.addresses[a].id, v.addresses[b].id),
            ) && (v.addresses[b].rank > v.addresses[a].rank || (v.addresses[b].rank
                == v.addresses[a].rank && v.addresses[b].id > v.addresses[a].id));
        assert(a == i) by {
            if a < i {
            } else if i < a {
            }
        }
        assert(b != i) by {
            if b == i {
                assert(v.addresses[b].rank == v.addresses[a].rank && v.addresses[b].id
                    == v.addresses[a].id);
            }
        }
        assert(false);
    }
}

} // verus!
