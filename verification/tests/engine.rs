use deduplicator::address::Address;
use deduplicator::dedupe::{DuplicateStatus, PairContext};
use deduplicator::deduplicator::{DedupeConfig, Deduplicator, PairFact};
use deduplicator::utils::partition;

fn bytes(s: &str) -> Vec<u8> {
    s.as_bytes().to_vec()
}

fn addr(lat: i64, lon: i64, number: &str, street: &str) -> Address {
    Address {
        lat,
        lon,
        number: Some(bytes(number)),
        street: Some(bytes(street)),
        unit: None,
        city: None,
        district: None,
        region: None,
        postcode: None,
    }
}

/// Ten distinct addresses, each with its own near-dupe key.
fn ten_addresses() -> Vec<Address> {
    let mut v = Vec::new();
    for i in 0..10i64 {
        v.push(addr(
            480_000_000 + i * 10_000_000,
            20_000_000 + i * 10_000_000,
            &format!("{}", i + 1),
            &format!("street {}", i + 1),
        ));
    }
    v
}

fn keys_for(a: &Address) -> Vec<Vec<u8>> {
    // Stand-in for the postal primitive's near-dupe keys: one key from
    // the house number and street, one from the coarse position.
    let mut k1 = a.number.clone().unwrap_or_default();
    k1.push(b'|');
    k1.extend_from_slice(&a.street.clone().unwrap_or_default());
    let k2 = format!("cell:{}:{}", a.lat / 1_000_000, a.lon / 1_000_000).into_bytes();
    vec![k1, k2]
}

fn run_pipeline(inputs: &[Address], times: usize, facts: &Vec<PairFact>) -> Vec<Address> {
    let mut dedupe = Deduplicator::new(DedupeConfig { nb_threads: 4 });
    for _ in 0..times {
        for a in inputs {
            dedupe.insert(a, 10, &keys_for(a));
        }
    }
    dedupe.compute_duplicates(facts);
    dedupe.apply_deletions();
    dedupe.addresses()
}

fn same_addresses(mut a: Vec<Address>, mut b: Vec<Address>) -> bool {
    let key = |x: &Address| {
        (
            x.lat,
            x.lon,
            x.number.clone(),
            x.street.clone(),
            x.city.clone(),
        )
    };
    a.sort_by_key(key);
    b.sort_by_key(key);
    a.len() == b.len()
        && a.iter().zip(b.iter()).all(|(x, y)| {
            x.lat == y.lat
                && x.lon == y.lon
                && x.number == y.number
                && x.street == y.street
                && x.unit == y.unit
                && x.city == y.city
                && x.district == y.district
                && x.region == y.region
                && x.postcode == y.postcode
        })
}

/// No item is removed from a set without duplicates.
#[test]
fn database_complete() {
    let inputs = ten_addresses();
    let output = run_pipeline(&inputs, 1, &Vec::new());
    assert_eq!(output.len(), 10);
    assert!(same_addresses(inputs, output));
}

/// All verbatim repeats are removed: inserting everything ten times
/// leaves each address once.
#[test]
fn remove_exact_duplicates() {
    let inputs = ten_addresses();
    let output = run_pipeline(&inputs, 10, &Vec::new());
    assert_eq!(output.len(), 10);
    assert!(same_addresses(inputs, output));
}

/// Non-trivial duplicates are removed: five close variants of stored
/// addresses disappear, ten survive.
#[test]
fn remove_close_duplicates() {
    let mut inputs = ten_addresses();
    // Five near-duplicates of the first five: same number, respelled
    // street, a few metres away. They share the coarse position key.
    for i in 0..5i64 {
        let mut dup = addr(
            480_000_000 + i * 10_000_000 + 500,
            20_000_000 + i * 10_000_000 + 500,
            &format!("{}", i + 1),
            &format!("st. {}", i + 1),
        );
        dup.unit = Some(bytes("bis"));
        inputs.push(dup);
    }
    // Ids are assigned in insertion order starting at 1; pair (i+1, 11+i)
    // is the original and its variant, ~7 m apart, street likely equal.
    let mut facts = Vec::new();
    for i in 0..5i64 {
        facts.push(PairFact {
            id_a: i + 1,
            id_b: 11 + i,
            ctx: PairContext {
                dist_cm: 700,
                house_number: DuplicateStatus::ExactDuplicate,
                street: DuplicateStatus::LikelyDuplicate,
                city: DuplicateStatus::NullDuplicate,
                postcode: DuplicateStatus::NullDuplicate,
            },
        });
    }
    let output = run_pipeline(&inputs, 1, &facts);
    assert_eq!(output.len(), 10);
    // Ranks are equal, so ties go to the higher id: exactly one of each
    // original/variant pair survives.
    for i in 0..5usize {
        let n = bytes(&format!("{}", i + 1));
        let count = output
            .iter()
            .filter(|a| a.number.as_deref() == Some(n.as_slice()))
            .count();
        assert_eq!(count, 1);
    }
}

/// Two addresses 120 m apart with identical number and street both
/// survive: the close-duplicate threshold is 100 m.
#[test]
fn close_but_apart_both_survive() {
    let a = addr(488_700_000, 23_000_000, "7", "rue des lilas");
    let mut b = addr(488_710_800, 23_000_000, "7", "rue des lilas");
    b.unit = Some(bytes("b"));
    let facts = vec![PairFact {
        id_a: 1,
        id_b: 2,
        ctx: PairContext {
            dist_cm: 12_000,
            house_number: DuplicateStatus::ExactDuplicate,
            street: DuplicateStatus::ExactDuplicate,
            city: DuplicateStatus::NullDuplicate,
            postcode: DuplicateStatus::NullDuplicate,
        },
    }];
    let output = run_pipeline(&[a, b], 1, &facts);
    assert_eq!(output.len(), 2);
}

/// Two addresses with identical number, street, city and postcode at
/// 900 m give a single survivor through the exact-duplicate branch.
#[test]
fn exact_far_single_survivor() {
    let mut a = addr(488_700_000, 23_000_000, "7", "rue des lilas");
    a.city = Some(bytes("Paris"));
    a.postcode = Some(bytes("75010"));
    let mut b = addr(488_781_000, 23_000_000, "7", "rue des lilas");
    b.city = Some(bytes("Paris"));
    b.postcode = Some(bytes("75010"));
    let facts = vec![PairFact {
        id_a: 1,
        id_b: 2,
        ctx: PairContext {
            dist_cm: 90_000,
            house_number: DuplicateStatus::ExactDuplicate,
            street: DuplicateStatus::ExactDuplicate,
            city: DuplicateStatus::ExactDuplicate,
            postcode: DuplicateStatus::ExactDuplicate,
        },
    }];
    let output = run_pipeline(&[a, b], 1, &facts);
    assert_eq!(output.len(), 1);
}

/// The higher rank survives among duplicates.
#[test]
fn higher_rank_survives() {
    let a = addr(488_700_000, 23_000_000, "7", "rue des lilas");
    let b = addr(488_700_100, 23_000_000, "7", "rue des lilas b");
    let mut dedupe = Deduplicator::new(DedupeConfig { nb_threads: 1 });
    dedupe.insert(&a, 31, &keys_for(&a));
    let mut bk = keys_for(&a);
    bk.extend(keys_for(&b));
    dedupe.insert(&b, 20, &bk);
    let facts = vec![PairFact {
        id_a: 1,
        id_b: 2,
        ctx: PairContext {
            dist_cm: 100,
            house_number: DuplicateStatus::ExactDuplicate,
            street: DuplicateStatus::LikelyDuplicate,
            city: DuplicateStatus::NullDuplicate,
            postcode: DuplicateStatus::NullDuplicate,
        },
    }];
    dedupe.compute_duplicates(&facts);
    assert_eq!(dedupe.count_to_delete(), 1);
    dedupe.apply_deletions();
    let out = dedupe.addresses();
    assert_eq!(out.len(), 1);
    assert_eq!(out[0].street.as_deref(), Some("rue des lilas".as_bytes()));
}

/// Records without a street, without a number, or with the "S/N"
/// sentinel are dropped at the boundary.
#[test]
fn ineligible_records_dropped() {
    let mut dedupe = Deduplicator::new(DedupeConfig { nb_threads: 2 });
    let ok = addr(1, 2, "12", "rue a");
    let mut no_street = ok.clone();
    no_street.street = None;
    let mut no_number = ok.clone();
    no_number.number = None;
    let mut sentinel = ok.clone();
    sentinel.number = Some(bytes("S/N"));
    let mut empty_number = ok.clone();
    empty_number.number = Some(Vec::new());
    dedupe.insert(&no_street, 1, &keys_for(&no_street));
    dedupe.insert(&no_number, 1, &keys_for(&no_number));
    dedupe.insert(&sentinel, 1, &keys_for(&sentinel));
    dedupe.insert(&empty_number, 1, &keys_for(&empty_number));
    assert_eq!(dedupe.count_addresses(), 0);
    dedupe.insert(&ok, 1, &keys_for(&ok));
    assert_eq!(dedupe.count_addresses(), 1);
    // A record with no near-dupe keys is skipped too.
    let other = addr(5, 6, "14", "rue b");
    dedupe.insert(&other, 1, &Vec::new());
    assert_eq!(dedupe.count_addresses(), 1);
}

/// Ingest is idempotent end to end: a second pass changes nothing.
#[test]
fn ingest_twice_same_store() {
    let inputs = ten_addresses();
    let mut dedupe = Deduplicator::new(DedupeConfig { nb_threads: 4 });
    for a in &inputs {
        dedupe.insert(a, 3, &keys_for(a));
    }
    let addresses_once = dedupe.count_addresses();
    let hashes_once = dedupe.count_hashes();
    for a in &inputs {
        dedupe.insert(a, 3, &keys_for(a));
    }
    assert_eq!(dedupe.count_addresses(), addresses_once);
    assert_eq!(dedupe.count_hashes(), hashes_once);
}

/// Partitioning `0..=99` into two parts gives `0..=49` and `50..=99`;
/// in general the parts tile the range in order, with no gap and no
/// overlap.
#[test]
fn test_partition() {
    let two = partition(0, 99, 2);
    assert_eq!(two, vec![(0, 49), (50, 99)]);
    for min_val in 0..=100i64 {
        for max_val in min_val..=100i64 {
            for nb_parts in 1..=10usize {
                let parts = partition(min_val, max_val, nb_parts);
                assert_eq!(parts.len(), nb_parts);
                let mut expect = min_val;
                for (lo, hi) in &parts {
                    assert_eq!(*lo, expect);
                    if hi >= lo {
                        expect = hi + 1;
                    }
                }
                assert_eq!(expect, max_val + 1);
            }
        }
    }
}

/// Applying with cleanup drops both construction tables; keeping them
/// leaves the fingerprint entries — dangling ones included — and the
/// markers in place.
#[test]
fn apply_and_clean_drops_construction_tables() {
    let build = || {
        let a = addr(488_700_000, 23_000_000, "7", "rue des lilas");
        let b = addr(488_700_100, 23_000_000, "7", "rue des lilas b");
        let mut dedupe = Deduplicator::new(DedupeConfig { nb_threads: 1 });
        dedupe.insert(&a, 31, &keys_for(&a));
        let mut bk = keys_for(&a);
        bk.extend(keys_for(&b));
        dedupe.insert(&b, 20, &bk);
        let facts = vec![PairFact {
            id_a: 1,
            id_b: 2,
            ctx: PairContext {
                dist_cm: 100,
                house_number: DuplicateStatus::ExactDuplicate,
                street: DuplicateStatus::LikelyDuplicate,
                city: DuplicateStatus::NullDuplicate,
                postcode: DuplicateStatus::NullDuplicate,
            },
        }];
        dedupe.compute_duplicates(&facts);
        dedupe
    };
    let mut cleaned = build();
    let hashes_before = cleaned.count_hashes();
    assert!(hashes_before > 0);
    assert_eq!(cleaned.apply_and_clean(false), 1);
    assert_eq!(cleaned.count_addresses(), 1);
    assert_eq!(cleaned.count_hashes(), 0);
    assert_eq!(cleaned.count_to_delete(), 0);
    let mut kept = build();
    assert_eq!(kept.apply_and_clean(true), 1);
    assert_eq!(kept.count_addresses(), 1);
    assert_eq!(kept.count_hashes(), hashes_before);
    assert_eq!(kept.count_to_delete(), 1);
}
