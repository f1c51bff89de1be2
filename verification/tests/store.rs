use deduplicator::address::Address;
use deduplicator::db_hashes::{DbHashes, StoreError};

fn bytes(s: &str) -> Vec<u8> {
    s.as_bytes().to_vec()
}

fn addr(lat: i64, lon: i64, number: &str, street: &str, city: Option<&str>) -> Address {
    Address {
        lat,
        lon,
        number: Some(bytes(number)),
        street: Some(bytes(street)),
        unit: None,
        city: city.map(bytes),
        district: None,
        region: None,
        postcode: None,
    }
}

/// Ids are assigned in increasing order; re-inserting the same natural
/// key is a constraint violation that leaves the store unchanged.
#[test]
fn insert_address_constraints() {
    let mut db = DbHashes::new();
    let a = addr(1, 2, "12", "rue a", Some("Paris"));
    let id1 = db.insert_address(&a, 5).unwrap();
    assert_eq!(id1, 1);
    let again = db.insert_address(&a, 9);
    assert_eq!(again, Err(StoreError::ConstraintViolation));
    assert!(again.unwrap_err().is_constraint_violation());
    assert_eq!(db.count_addresses(), 1);
    // A different unit does not change the natural key; a different
    // city does.
    let mut b = a.clone();
    b.unit = Some(bytes("2"));
    assert!(db.insert_address(&b, 5).is_err());
    let mut c = a.clone();
    c.city = Some(bytes("Lyon"));
    let id2 = db.insert_address(&c, 5).unwrap();
    assert_eq!(id2, 2);
    assert_eq!(db.count_addresses(), 2);
}

/// Fingerprint entries are unique pairs over known ids.
#[test]
fn insert_hash_constraints() {
    let mut db = DbHashes::new();
    let a = addr(1, 2, "12", "rue a", None);
    let id = db.insert_address(&a, 1).unwrap();
    assert_eq!(db.insert_hash(id, 77), Ok(()));
    assert_eq!(db.insert_hash(id, 77), Err(StoreError::ConstraintViolation));
    assert_eq!(db.insert_hash(id, 78), Ok(()));
    assert_eq!(db.insert_hash(999, 77), Err(StoreError::ConstraintViolation));
    assert_eq!(db.count_hashes(), 2);
}

/// The collision scan yields rows grouped by fingerprint, only for
/// fingerprints shared by at least two addresses, and the partitioned
/// scans tile the full scan.
#[test]
fn collision_scan_groups_and_partitions() {
    let mut db = DbHashes::new();
    let mut ids = Vec::new();
    for i in 0..6i64 {
        let a = addr(i, i, &format!("{}", i), "street", None);
        ids.push(db.insert_address(&a, i).unwrap());
    }
    // Fingerprint 100 shared by three, 200 by two, 300 unshared.
    db.insert_hash(ids[0], 100).unwrap();
    db.insert_hash(ids[1], 100).unwrap();
    db.insert_hash(ids[2], 100).unwrap();
    db.insert_hash(ids[3], 200).unwrap();
    db.insert_hash(ids[4], 200).unwrap();
    db.insert_hash(ids[5], 300).unwrap();
    assert_eq!(db.count_hashes(), 6);
    assert_eq!(db.count_collisions(), 5);
    db.create_hashes_index();
    let full = db.get_collisions_iter_for_parts(0, 1);
    let pairs: Vec<(i64, i64)> = full.iter().map(|it| (it.hash, it.id)).collect();
    assert_eq!(
        pairs,
        vec![(100, ids[0]), (100, ids[1]), (100, ids[2]), (200, ids[3]), (200, ids[4])]
    );
    // Every partitioned scan holds a slice of the full scan, and the
    // slices together hold exactly the full scan.
    for nb_parts in 1..=5usize {
        let mut glued: Vec<(i64, i64)> = Vec::new();
        for part in 0..nb_parts {
            let items = db.get_collisions_iter_for_parts(part, nb_parts);
            glued.extend(items.iter().map(|it| (it.hash, it.id)));
        }
        assert_eq!(glued, pairs, "with {} partitions", nb_parts);
    }
}

/// Deletion markers are deduplicated and applied once; applying touches
/// only the address table, and cleanup drops both construction tables.
#[test]
fn deletions_and_cleanup() {
    let mut db = DbHashes::new();
    let mut ids = Vec::new();
    for i in 0..4i64 {
        let a = addr(i, i, &format!("{}", i), "street", None);
        ids.push(db.insert_address(&a, i).unwrap());
    }
    db.insert_hash(ids[0], 9).unwrap();
    db.insert_hash(ids[1], 9).unwrap();
    assert_eq!(db.count_to_delete(), 0);
    let marks = vec![ids[1], ids[2], ids[1]];
    assert_eq!(db.insert_to_delete(&marks), 2);
    assert_eq!(db.count_to_delete(), 2);
    // Marked addresses are hidden from the survivors even before the
    // bulk delete.
    assert_eq!(db.get_addresses().len(), 2);
    let removed = db.apply_addresses_to_delete();
    assert_eq!(removed, 2);
    assert_eq!(db.count_addresses(), 2);
    assert_eq!(db.get_addresses().len(), 2);
    // The bulk delete leaves the fingerprint table alone: the deleted
    // address's entry dangles, and the scan joins it away while it still
    // counts as a fingerprint-sharer.
    assert_eq!(db.count_hashes(), 2);
    assert_eq!(db.count_to_delete(), 2);
    let rows = db.get_collisions_iter_for_parts(0, 1);
    assert_eq!(rows.len(), 1);
    assert_eq!(rows[0].id, ids[0]);
    db.cleanup_database();
    assert_eq!(db.count_hashes(), 0);
    assert_eq!(db.count_to_delete(), 0);
}

/// Lookup by house number and street, and the distinct-city count.
#[test]
fn auxiliary_queries() {
    let mut db = DbHashes::new();
    db.insert_address(&addr(1, 1, "12", "rue a", Some("Paris")), 1).unwrap();
    db.insert_address(&addr(2, 2, "12", "rue a", Some("Lyon")), 1).unwrap();
    db.insert_address(&addr(3, 3, "14", "rue a", Some("Paris")), 1).unwrap();
    db.insert_address(&addr(4, 4, "12", "rue b", None), 1).unwrap();
    let found = db.get_addresses_by_street(&bytes("12"), &bytes("rue a"));
    assert_eq!(found.len(), 2);
    assert_eq!(db.count_cities(), 2);
}
