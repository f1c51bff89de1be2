use deduplicator::address::{postal_repr, Address};
use deduplicator::dedupe::{
    field_compare, hash_postal_keys, is_duplicate, opt_field_compare, DuplicateStatus,
    PairContext,
};

fn bytes(s: &str) -> Vec<u8> {
    s.as_bytes().to_vec()
}

fn addr(lat: i64, lon: i64, number: &str, street: &str) -> Address {
    Address {
        lat,
        lon,
        number: Some(bytes(number)),
        street: Some(bytes(street)),
        unit: None,
        city: None,
        district: None,
        region: None,
        postcode: None,
    }
}

/// Great-circle distance in centimetres between two fixed-point
/// coordinates, for building comparison contexts in tests.
fn haversine_cm(lat1: i64, lon1: i64, lat2: i64, lon2: i64) -> u64 {
    let to_rad = |v: i64| (v as f64) * 1e-7 * std::f64::consts::PI / 180.0;
    let (p1, l1, p2, l2) = (to_rad(lat1), to_rad(lon1), to_rad(lat2), to_rad(lon2));
    let dp = p2 - p1;
    let dl = l2 - l1;
    let a = (dp / 2.0).sin().powi(2) + p1.cos() * p2.cos() * (dl / 2.0).sin().powi(2);
    let d = 2.0 * a.sqrt().asin() * 6_371_000.0;
    (d * 100.0).round() as u64
}

fn ctx(dist_cm: u64, hn: DuplicateStatus, st: DuplicateStatus) -> PairContext {
    PairContext {
        dist_cm,
        house_number: hn,
        street: st,
        city: DuplicateStatus::NullDuplicate,
        postcode: DuplicateStatus::NullDuplicate,
    }
}

/// The classic near-duplicate pair: same house number, respelled street,
/// about a hundred metres apart. The street match falls to the outside
/// verdict; a likely match makes the pair duplicates.
#[test]
fn champs_elysees_pair() {
    let a = addr(488_707_572, 23_047_277, "32", "av. des Champs Elysees");
    let b = addr(488_700_000, 23_040_000, "32", "avenue des champs elysees");
    let d = haversine_cm(a.lat, a.lon, b.lat, b.lon);
    assert!(d < 10_000, "the pair sits within the close threshold: {} cm", d);
    assert!(is_duplicate(
        &a,
        &b,
        &ctx(d, DuplicateStatus::ExactDuplicate, DuplicateStatus::LikelyDuplicate)
    ));
    // Their fabricated near-dupe key sets intersect on the number key,
    // so their fingerprint sets intersect as well.
    let keys_a = vec![bytes("32|key"), bytes("only a")];
    let keys_b = vec![bytes("only b"), bytes("32|key")];
    let fps_a = hash_postal_keys(&keys_a);
    let fps_b = hash_postal_keys(&keys_b);
    assert!(fps_a.iter().any(|f| fps_b.contains(f)));
}

/// Equal bytes short-circuit to an exact match without any outside
/// verdict; the close branch then fires under 100 m.
#[test]
fn equal_fields_short_circuit() {
    let a = addr(1, 1, "7", "rue des lilas");
    let b = addr(2, 2, "7", "rue des lilas");
    assert!(is_duplicate(
        &a,
        &b,
        &ctx(9_999, DuplicateStatus::NullDuplicate, DuplicateStatus::NullDuplicate)
    ));
    assert!(!is_duplicate(
        &a,
        &b,
        &ctx(10_000, DuplicateStatus::NullDuplicate, DuplicateStatus::NullDuplicate)
    ));
}

/// The very-close branch takes a street match that merely needs review,
/// but only under 10 m.
#[test]
fn very_close_thresholds() {
    let a = addr(1, 1, "7", "rue des lilas");
    let b = addr(2, 2, "7", "r. des lilas");
    let possible = ctx(
        999,
        DuplicateStatus::NullDuplicate,
        DuplicateStatus::PossibleDuplicateNeedsReview,
    );
    assert!(is_duplicate(&a, &b, &possible));
    let too_far = ctx(
        1_000,
        DuplicateStatus::NullDuplicate,
        DuplicateStatus::PossibleDuplicateNeedsReview,
    );
    assert!(!is_duplicate(&a, &b, &too_far));
}

/// The exact branch needs all four fields exact, within 1 km.
#[test]
fn exact_branch_thresholds() {
    let mut a = addr(1, 1, "7", "rue des lilas");
    a.city = Some(bytes("Paris"));
    a.postcode = Some(bytes("75010"));
    let mut b = addr(2, 2, "7", "rue des lilas");
    b.city = Some(bytes("Paris"));
    b.postcode = Some(bytes("75010"));
    let all_exact = PairContext {
        dist_cm: 99_999,
        house_number: DuplicateStatus::NullDuplicate,
        street: DuplicateStatus::NullDuplicate,
        city: DuplicateStatus::NullDuplicate,
        postcode: DuplicateStatus::NullDuplicate,
    };
    assert!(is_duplicate(&a, &b, &all_exact));
    let mut far = all_exact;
    far.dist_cm = 100_000;
    assert!(!is_duplicate(&a, &b, &far));
    // A missing postcode on one side breaks the exact branch.
    let mut c = b.clone();
    c.postcode = None;
    assert!(!is_duplicate(&a, &c, &all_exact));
}

/// Both house numbers absent count as an exact match; one absent does
/// not. Street, city and postcode need both sides present.
#[test]
fn field_compare_tables() {
    let some7 = Some(bytes("7"));
    let some8 = Some(bytes("8"));
    let none: Option<Vec<u8>> = None;
    let ext = DuplicateStatus::LikelyDuplicate;
    assert_eq!(
        opt_field_compare(&some7, &some7, ext),
        DuplicateStatus::ExactDuplicate
    );
    assert_eq!(opt_field_compare(&some7, &some8, ext), ext);
    assert_eq!(
        opt_field_compare(&none, &none, ext),
        DuplicateStatus::ExactDuplicate
    );
    assert_eq!(
        opt_field_compare(&some7, &none, ext),
        DuplicateStatus::NonDuplicate
    );
    assert_eq!(
        field_compare(&some7, &some7, ext),
        DuplicateStatus::ExactDuplicate
    );
    assert_eq!(field_compare(&some7, &some8, ext), ext);
    assert_eq!(
        field_compare(&none, &none, ext),
        DuplicateStatus::NonDuplicate
    );
    assert_eq!(
        field_compare(&some7, &none, ext),
        DuplicateStatus::NonDuplicate
    );
}

/// The confidence order of duplicate statuses.
#[test]
fn status_order() {
    let order = [
        DuplicateStatus::NullDuplicate,
        DuplicateStatus::NonDuplicate,
        DuplicateStatus::PossibleDuplicateNeedsReview,
        DuplicateStatus::LikelyDuplicate,
        DuplicateStatus::ExactDuplicate,
    ];
    for i in 0..order.len() {
        for j in 0..order.len() {
            assert_eq!(order[i].at_least(order[j]), i >= j);
        }
    }
}

/// Fingerprinting is a function of the key bytes alone: equal keys give
/// equal fingerprints, across calls.
#[test]
fn fingerprints_deterministic() {
    let keys = vec![bytes("32|avenue"), bytes("cell:48:2")];
    let once = hash_postal_keys(&keys);
    let twice = hash_postal_keys(&keys);
    assert_eq!(once, twice);
    assert_eq!(once.len(), 2);
    // Distinct keys give (here) distinct fingerprints.
    assert_ne!(once[0], once[1]);
}

/// The labelled representation holds one pair per present field, under
/// the labels the address-matching primitive knows.
#[test]
fn postal_repr_pairs() {
    let empty = Address {
        lat: 0,
        lon: 0,
        number: None,
        street: None,
        unit: None,
        city: None,
        district: None,
        region: None,
        postcode: None,
    };
    assert_eq!(postal_repr(&empty).len(), 0);
    let mut a = empty.clone();
    a.number = Some(bytes("54"));
    a.street = Some(bytes("rue des Koubis"));
    a.city = Some(bytes("Paris"));
    let repr = postal_repr(&a);
    assert_eq!(repr.len(), 3);
    assert_eq!(repr[0], (bytes("house_number"), bytes("54")));
    assert_eq!(repr[1], (bytes("road"), bytes("rue des Koubis")));
    assert!(repr.contains(&(bytes("city"), bytes("Paris"))));
}
