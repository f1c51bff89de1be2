use deduplicator::address::Address;
use deduplicator::deduplicator::{DedupeConfig, Deduplicator};
use deduplicator::openaddress::{coord_to_bytes, dump_records, parse_coord, OpenAddress};

fn bytes(s: &str) -> Vec<u8> {
    s.as_bytes().to_vec()
}

/// Coordinates render as degrees with seven decimals and read back
/// exactly.
#[test]
fn coord_text_round_trip() {
    let cases: Vec<(i64, &str)> = vec![
        (488_707_572, "48.8707572"),
        (23_047_277, "2.3047277"),
        (0, "0.0000000"),
        (-1, "-0.0000001"),
        (-1_800_000_000, "-180.0000000"),
        (10_000_000, "1.0000000"),
        (i64::MAX, "922337203685.4775807"),
        (i64::MIN, "-922337203685.4775808"),
    ];
    for (v, text) in cases {
        let rendered = coord_to_bytes(v);
        assert_eq!(rendered, text.as_bytes().to_vec(), "render {}", v);
        assert_eq!(parse_coord(&rendered), Some(v), "parse {}", text);
    }
    assert_eq!(parse_coord(&bytes("not a number")), None);
    assert_eq!(parse_coord(&bytes("1.23")), None);
    assert_eq!(parse_coord(&bytes("01.0000000")), None);
    assert_eq!(parse_coord(&bytes("-0.0000000")), None);
}

/// An address with absent fields becomes a record with empty strings and
/// comes back unchanged.
#[test]
fn record_round_trip() {
    let a = Address {
        lat: 488_707_572,
        lon: -23_047_277,
        number: Some(bytes("32")),
        street: Some(bytes("av. des Champs Elysees")),
        unit: None,
        city: Some(bytes("Paris")),
        district: None,
        region: None,
        postcode: Some(bytes("75008")),
    };
    let rec = OpenAddress::from_address(&a);
    assert_eq!(rec.unit, Vec::<u8>::new());
    assert_eq!(rec.city, bytes("Paris"));
    let back = rec.to_address();
    assert_eq!(back.lat, a.lat);
    assert_eq!(back.lon, a.lon);
    assert_eq!(back.number, a.number);
    assert_eq!(back.street, a.street);
    assert_eq!(back.unit, a.unit);
    assert_eq!(back.city, a.city);
    assert_eq!(back.district, a.district);
    assert_eq!(back.region, a.region);
    assert_eq!(back.postcode, a.postcode);
}

/// The emitted CSV parses with a stock CSV reader: the header holds the
/// fixed column order and each row reconstructs its record, quoting
/// included.
#[test]
fn csv_matches_stock_reader() {
    let rec = |lat: i64, lon: i64, number: &str, street: &str| OpenAddress {
        lat,
        lon,
        number: bytes(number),
        street: bytes(street),
        unit: Vec::new(),
        city: bytes("Paris"),
        district: Vec::new(),
        region: Vec::new(),
        postcode: Vec::new(),
    };
    let records = vec![
        rec(488_707_572, 23_047_277, "32", "av. des Champs Elysees"),
        rec(-10_000_000, 0, "7 bis", "street, with \"quotes\"\nand a break"),
    ];
    let out = dump_records(&records);
    let mut reader = csv::ReaderBuilder::new().from_reader(out.as_slice());
    let headers: Vec<String> = reader
        .headers()
        .unwrap()
        .iter()
        .map(|h| h.to_string())
        .collect();
    assert_eq!(
        headers,
        vec!["LAT", "LON", "NUMBER", "STREET", "UNIT", "CITY", "DISTRICT", "REGION", "POSTCODE"]
    );
    let rows: Vec<Vec<String>> = reader
        .records()
        .map(|r| r.unwrap().iter().map(|f| f.to_string()).collect())
        .collect();
    assert_eq!(rows.len(), 2);
    assert_eq!(rows[0][0], "48.8707572");
    assert_eq!(rows[0][1], "2.3047277");
    assert_eq!(rows[0][2], "32");
    assert_eq!(rows[0][3], "av. des Champs Elysees");
    assert_eq!(rows[0][4], "");
    assert_eq!(rows[0][5], "Paris");
    assert_eq!(rows[1][0], "-1.0000000");
    assert_eq!(rows[1][3], "street, with \"quotes\"\nand a break");
}

/// The CSV dump of the store holds exactly the surviving addresses: what
/// a stock reader reconstructs equals what the store reports.
#[test]
fn csv_is_complete() {
    let mut dedupe = Deduplicator::new(DedupeConfig { nb_threads: 2 });
    for i in 0..10i64 {
        let a = Address {
            lat: 480_000_000 + i,
            lon: 20_000_000 - i,
            number: Some(bytes(&format!("{}", i + 1))),
            street: Some(bytes(&format!("street {}", i + 1))),
            unit: None,
            city: if i % 2 == 0 { Some(bytes("Paris")) } else { None },
            district: None,
            region: None,
            postcode: None,
        };
        let key = vec![bytes(&format!("key {}", i))];
        dedupe.insert(&a, 1, &key);
    }
    let stored = dedupe.addresses();
    assert_eq!(stored.len(), 10);
    let out = dedupe.openaddresses_dump();
    let mut reader = csv::ReaderBuilder::new().from_reader(out.as_slice());
    let mut read_back: Vec<Address> = Vec::new();
    for row in reader.records() {
        let row = row.unwrap();
        let field = |k: usize| -> Option<Vec<u8>> {
            let f = row.get(k).unwrap().as_bytes().to_vec();
            if f.is_empty() {
                None
            } else {
                Some(f)
            }
        };
        read_back.push(Address {
            lat: parse_coord(&row.get(0).unwrap().as_bytes().to_vec()).unwrap(),
            lon: parse_coord(&row.get(1).unwrap().as_bytes().to_vec()).unwrap(),
            number: field(2),
            street: field(3),
            unit: field(4),
            city: field(5),
            district: field(6),
            region: field(7),
            postcode: field(8),
        });
    }
    assert_eq!(read_back.len(), stored.len());
    for (a, b) in stored.iter().zip(read_back.iter()) {
        assert_eq!(a.lat, b.lat);
        assert_eq!(a.lon, b.lon);
        assert_eq!(a.number, b.number);
        assert_eq!(a.street, b.street);
        assert_eq!(a.unit, b.unit);
        assert_eq!(a.city, b.city);
        assert_eq!(a.district, b.district);
        assert_eq!(a.region, b.region);
        assert_eq!(a.postcode, b.postcode);
    }
}
