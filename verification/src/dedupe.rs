//! The duplicate comparator and the fingerprint step of the hasher.
//!
//! The fuzzy per-field verdicts and the great-circle distance between two
//! records come from outside the library (a native address-matching
//! primitive and floating-point geometry); they are handed in as a
//! [`PairContext`]. The decision itself — which combinations of distance
//! band and per-field verdicts make two records duplicates — is decided
//! and verified here, for every possible value of those inputs.

use vstd::prelude::*;
use crate::address::{Address, AddressV};
use std::collections::hash_map::DefaultHasher;
use std::hash::Hasher;
use vstd::std_specs::hash::DefaultHasherAdditionalSpecFns;

verus! {

/// How confidently two field values name the same thing, in increasing
/// order. The null level means the primitive had nothing to say; it
/// ranks below an outright non-duplicate.
#[derive(Clone, Copy, PartialEq, Eq, Structural, Debug)]
pub enum DuplicateStatus {
    NullDuplicate,
    NonDuplicate,
    PossibleDuplicateNeedsReview,
    LikelyDuplicate,
    ExactDuplicate,
}

impl DuplicateStatus {
    /// Position in the confidence order.
    pub open spec fn level_spec(self) -> int {
        match self {
            DuplicateStatus::NullDuplicate => 0,
            DuplicateStatus::NonDuplicate => 1,
            DuplicateStatus::PossibleDuplicateNeedsReview => 2,
            DuplicateStatus::LikelyDuplicate => 3,
            DuplicateStatus::ExactDuplicate => 4,
        }
    }

    /// Whether `self` ranks at least as high as `other`.
    pub open spec fn at_least_spec(self, other: DuplicateStatus) -> bool {
        self.level_spec() >= other.level_spec()
    }

    /// Position in the confidence order.
    pub fn level(self) -> (r: u8)
        ensures
            r == self.level_spec(),
    {
        match self {
            DuplicateStatus::NullDuplicate => 0,
            DuplicateStatus::NonDuplicate => 1,
            DuplicateStatus::PossibleDuplicateNeedsReview => 2,
            DuplicateStatus::LikelyDuplicate => 3,
            DuplicateStatus::ExactDuplicate => 4,
        }
    }

    /// Whether `self` ranks at least as high as `other`.
    pub fn at_least(self, other: DuplicateStatus) -> (r: bool)
        ensures
            r == self.at_least_spec(other),
    {
        self.level() >= other.level()
    }
}

/// Comparison of two strict fields: both must be present; equal bytes are
/// an exact duplicate outright, and otherwise the outside verdict `ext`
/// stands.
pub open spec fn field_compare_spec(
    f1: Option<Seq<u8>>,
    f2: Option<Seq<u8>>,
    ext: DuplicateStatus,
) -> DuplicateStatus {
    match (f1, f2) {
        (Some(a), Some(b)) => if a == b {
            DuplicateStatus::ExactDuplicate
        } else {
            ext
        },
        _ => DuplicateStatus::NonDuplicate,
    }
}

/// Comparison of two optional fields: as `field_compare_spec`, except that
/// two absent fields count as an exact duplicate.
pub open spec fn opt_field_compare_spec(
    f1: Option<Seq<u8>>,
    f2: Option<Seq<u8>>,
    ext: DuplicateStatus,
) -> DuplicateStatus {
    match (f1, f2) {
        (Some(a), Some(b)) => if a == b {
            DuplicateStatus::ExactDuplicate
        } else {
            ext
        },
        (None, None) => DuplicateStatus::ExactDuplicate,
        _ => DuplicateStatus::NonDuplicate,
    }
}

/// Compare two fields that must both be present. Equal bytes short-circuit
/// to `ExactDuplicate` without consulting the outside verdict.
pub fn field_compare(f1: &Option<Vec<u8>>, f2: &Option<Vec<u8>>, ext: DuplicateStatus) -> (r:
    DuplicateStatus)
    ensures
        r == field_compare_spec(
            crate::address::opt_bytes_view(*f1),
            crate::address::opt_bytes_view(*f2),
            ext,
        ),
{
    match (f1, f2) {
        (Some(a), Some(b)) => if crate::address::bytes_eq(a, b) {
            DuplicateStatus::ExactDuplicate
        } else {
            ext
        },
        _ => DuplicateStatus::NonDuplicate,
    }
}

/// Compare two optional fields; two absent fields count as exactly equal.
pub fn opt_field_compare(f1: &Option<Vec<u8>>, f2: &Option<Vec<u8>>, ext: DuplicateStatus) -> (r:
    DuplicateStatus)
    ensures
        r == opt_field_compare_spec(
            crate::address::opt_bytes_view(*f1),
            crate::address::opt_bytes_view(*f2),
            ext,
        ),
{
    match (f1, f2) {
        (Some(a), Some(b)) => if crate::address::bytes_eq(a, b) {
            DuplicateStatus::ExactDuplicate
        } else {
            ext
        },
        (None, None) => DuplicateStatus::ExactDuplicate,
        _ => DuplicateStatus::NonDuplicate,
    }
}

/// Two addresses closer than this are duplicates already when the house
/// numbers match exactly and the street match merely needs review.
pub const VERY_CLOSE_DIST_CM: u64 = 1_000;

/// Two addresses closer than this are duplicates when the house numbers
/// match exactly and the streets are likely the same.
pub const CLOSE_DIST_CM: u64 = 10_000;

/// Two addresses closer than this are duplicates when house number,
/// street, city and postcode all match exactly.
pub const EXACT_DIST_CM: u64 = 100_000;

/// What the outside world knows of one pair of records: their
/// great-circle distance in centimetres, and the fuzzy verdict of the
/// address-matching primitive on each field pair. The verdicts only
/// matter where both fields are present with different bytes; equal bytes
/// short-circuit without consulting them.
#[derive(Clone, Copy, PartialEq, Eq, Structural, Debug)]
pub struct PairContext {
    pub dist_cm: u64,
    pub house_number: DuplicateStatus,
    pub street: DuplicateStatus,
    pub city: DuplicateStatus,
    pub postcode: DuplicateStatus,
}

impl PairContext {
    /// The context that holds when nothing is known of a pair: infinitely
    /// far apart, with no verdict on any field.
    pub fn unrelated() -> (r: PairContext)
        ensures
            r == PairContext::unrelated_spec(),
    {
        PairContext {
            dist_cm: u64::MAX,
            house_number: DuplicateStatus::NullDuplicate,
            street: DuplicateStatus::NullDuplicate,
            city: DuplicateStatus::NullDuplicate,
            postcode: DuplicateStatus::NullDuplicate,
        }
    }

    pub open spec fn unrelated_spec() -> PairContext {
        PairContext {
            dist_cm: u64::MAX,
            house_number: DuplicateStatus::NullDuplicate,
            street: DuplicateStatus::NullDuplicate,
            city: DuplicateStatus::NullDuplicate,
            postcode: DuplicateStatus::NullDuplicate,
        }
    }
}

/// Whether two records describe the same address, given the outside
/// distance and field verdicts: within 10 m with matching house number and
/// a street match at least needing review; or within 100 m with matching
/// house number and a likely street match; or within 1 km with house
/// number, street, city and postcode all exact.
pub open spec fn is_duplicate_spec(a: AddressV, b: AddressV, ctx: PairContext) -> bool {
    let hn = opt_field_compare_spec(a.number, b.number, ctx.house_number);
    let st = field_compare_spec(a.street, b.street, ctx.street);
    let ct = field_compare_spec(a.city, b.city, ctx.city);
    let pc = field_compare_spec(a.postcode, b.postcode, ctx.postcode);
    ||| (ctx.dist_cm < VERY_CLOSE_DIST_CM && hn.at_least_spec(DuplicateStatus::ExactDuplicate)
        && st.at_least_spec(DuplicateStatus::PossibleDuplicateNeedsReview))
    ||| (ctx.dist_cm < CLOSE_DIST_CM && hn.at_least_spec(DuplicateStatus::ExactDuplicate)
        && st.at_least_spec(DuplicateStatus::LikelyDuplicate))
    ||| (ctx.dist_cm < EXACT_DIST_CM && hn == DuplicateStatus::ExactDuplicate && st
        == DuplicateStatus::ExactDuplicate && ct == DuplicateStatus::ExactDuplicate && pc
        == DuplicateStatus::ExactDuplicate)
}

/// Decide whether two records are duplicates from the records and the
/// outside comparison context of the pair.
pub fn is_duplicate(addr_1: &Address, addr_2: &Address, ctx: &PairContext) -> (r: bool)
    ensures
        r == is_duplicate_spec(addr_1@, addr_2@, *ctx),
{
    let hn = opt_field_compare(&addr_1.number, &addr_2.number, ctx.house_number);
    let st = field_compare(&addr_1.street, &addr_2.street, ctx.street);

    let very_close = ctx.dist_cm < VERY_CLOSE_DIST_CM && hn.at_least(
        DuplicateStatus::ExactDuplicate,
    ) && st.at_least(DuplicateStatus::PossibleDuplicateNeedsReview);
    let close = ctx.dist_cm < CLOSE_DIST_CM && hn.at_least(DuplicateStatus::ExactDuplicate)
        && st.at_least(DuplicateStatus::LikelyDuplicate);
    if very_close || close {
        return true;
    }
    let ct = field_compare(&addr_1.city, &addr_2.city, ctx.city);
    let pc = field_compare(&addr_1.postcode, &addr_2.postcode, ctx.postcode);
    ctx.dist_cm < EXACT_DIST_CM && hn.level() == 4 && st.level() == 4 && ct.level() == 4
        && pc.level() == 4
}

/// The comparator does not depend on the order of the pair.
pub proof fn lemma_is_duplicate_symmetric(a: AddressV, b: AddressV, ctx: PairContext)
    ensures
        is_duplicate_spec(a, b, ctx) == is_duplicate_spec(b, a, ctx),
{
}

/// The 64-bit fingerprint of one near-dupe key, reinterpreted as the
/// store's signed fingerprint type. A function of the key bytes alone.
pub open spec fn fingerprint_spec(key: Seq<u8>) -> i64 {
    DefaultHasher::spec_finish(seq![key]) as i64
}

/// Fingerprint one near-dupe key with the standard library's stable
/// default hasher.
pub fn fingerprint_of_key(key: &Vec<u8>) -> (r: i64)
    ensures
        r == fingerprint_spec(key@),
{
    let mut hasher = DefaultHasher::new();
    hasher.write(key.as_slice());
    let h = hasher.finish();
    proof {
        assert(hasher@ =~= seq![key@]);
    }
    #[verifier::truncate] (h as i64)
}

/// Fingerprints of a record's near-dupe keys, one per key, in order. The
/// keys themselves come from the address-matching primitive; an empty key
/// set yields an empty fingerprint set, and such a record is skipped by
/// the pipeline.
pub fn hash_postal_keys(keys: &Vec<Vec<u8>>) -> (r: Vec<i64>)
    ensures
        r@.len() == keys@.len(),
        forall|i: int| 0 <= i < keys@.len() ==> r@[i] == fingerprint_spec(keys@[i]@),
{
    let mut r: Vec<i64> = Vec::new();
    let n = keys.len();
    for i in 0..n
        invariant
            n == keys@.len(),
            r@.len() == i,
            forall|j: int| 0 <= j < i ==> r@[j] == fingerprint_spec(keys@[j]@),
    {
        r.push(fingerprint_of_key(&keys[i]));
    }
    r
}

/// The fingerprints of a sequence of near-dupe keys, in order.
pub open spec fn fingerprints_of(keys: Seq<Seq<u8>>) -> Seq<i64> {
    keys.map_values(|k: Seq<u8>| fingerprint_spec(k))
}

/// Law: the fingerprint is a function of the key bytes alone, so two
/// records whose near-dupe key sets share a key share a fingerprint.
/// Recall of the full hashing scheme additionally rests on the outside
/// primitive producing intersecting key sets for duplicate records.
pub proof fn lemma_shared_key_shared_fingerprint(
    keys_a: Seq<Seq<u8>>,
    keys_b: Seq<Seq<u8>>,
    key: Seq<u8>,
)
    requires
        keys_a.contains(key),
        keys_b.contains(key),
    ensures
        exists|fp: i64|
            #[trigger] fingerprints_of(keys_a).contains(fp) && fingerprints_of(keys_b).contains(
                fp,
            ),
{
    let fp = fingerprint_spec(key);
    let fps_a = fingerprints_of(keys_a);
    let fps_b = fingerprints_of(keys_b);
    let i = choose|i: int| 0 <= i < keys_a.len() && keys_a[i] == key;
    let j = choose|j: int| 0 <= j < keys_b.len() && keys_b[j] == key;
    assert(fps_a[i] == fp);
    assert(fps_b[j] == fp);
    assert(fps_a.contains(fp));
    assert(fps_b.contains(fp));
}

} // verus!
