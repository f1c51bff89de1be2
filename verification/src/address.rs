//! The canonical address record.
//!
//! Coordinates are held in fixed-point: units of one ten-millionth of a
//! degree, so that the whole latitude range fits comfortably in an `i64`
//! while keeping centimetre-level resolution. Textual fields hold UTF-8
//! text as plain bytes; a missing field is `None`.

use vstd::prelude::*;

verus! {

/// Number of logical fields of an address record (two coordinates and
/// seven textual fields).
pub const NB_FIELDS: usize = 9;

/// Mathematical value of an address: coordinates plus the byte sequences
/// of the present textual fields.
pub ghost struct AddressV {
    pub lat: i64,
    pub lon: i64,
    pub number: Option<Seq<u8>>,
    pub street: Option<Seq<u8>>,
    pub unit: Option<Seq<u8>>,
    pub city: Option<Seq<u8>>,
    pub district: Option<Seq<u8>>,
    pub region: Option<Seq<u8>>,
    pub postcode: Option<Seq<u8>>,
}

/// An address record. `lat` and `lon` are fixed-point coordinates in units
/// of 1e-7 degree; every other field is optional UTF-8 text held as bytes.
pub struct Address {
    pub lat: i64,
    pub lon: i64,
    pub number: Option<Vec<u8>>,
    pub street: Option<Vec<u8>>,
    pub unit: Option<Vec<u8>>,
    pub city: Option<Vec<u8>>,
    pub district: Option<Vec<u8>>,
    pub region: Option<Vec<u8>>,
    pub postcode: Option<Vec<u8>>,
}

/// View of an optional byte field: the byte sequence when present.
pub open spec fn opt_bytes_view(o: Option<Vec<u8>>) -> Option<Seq<u8>> {
    match o {
        Some(v) => Some(v@),
        None => None,
    }
}

impl View for Address {
    type V = AddressV;

    open spec fn view(&self) -> AddressV {
        AddressV {
            lat: self.lat,
            lon: self.lon,
            number: opt_bytes_view(self.number),
            street: opt_bytes_view(self.street),
            unit: opt_bytes_view(self.unit),
            city: opt_bytes_view(self.city),
            district: opt_bytes_view(self.district),
            region: opt_bytes_view(self.region),
            postcode: opt_bytes_view(self.postcode),
        }
    }
}

/// The "no house number" sentinel, the bytes of `"S/N"`.
pub open spec fn sn_sentinel() -> Seq<u8> {
    seq![83u8, 47u8, 78u8]
}

impl AddressV {
    /// Number of populated fields; coordinates are always present.
    pub open spec fn count_non_empty_fields(self) -> int {
        2 + (if self.number is Some { 1int } else { 0 })
            + (if self.street is Some { 1int } else { 0 })
            + (if self.unit is Some { 1int } else { 0 })
            + (if self.city is Some { 1int } else { 0 })
            + (if self.district is Some { 1int } else { 0 })
            + (if self.region is Some { 1int } else { 0 })
            + (if self.postcode is Some { 1int } else { 0 })
    }

    /// An address may enter the store only with a street and with a real
    /// house number: present, non-empty and distinct from the `"S/N"`
    /// sentinel.
    pub open spec fn eligible(self) -> bool {
        &&& self.number matches Some(n) && n.len() > 0 && n != sn_sentinel()
        &&& self.street is Some
    }

    /// The natural key under which the store deduplicates verbatim repeats.
    pub open spec fn natural_key(self) -> (i64, i64, Option<Seq<u8>>, Option<Seq<u8>>, Option<
        Seq<u8>,
    >) {
        (self.lat, self.lon, self.number, self.street, self.city)
    }
}

/// Copy a byte vector, element by element.
pub fn copy_bytes(v: &Vec<u8>) -> (r: Vec<u8>)
    ensures
        r@ == v@,
{
    let mut r: Vec<u8> = Vec::new();
    let n = v.len();
    for i in 0..n
        invariant
            n == v@.len(),
            r@ =~= v@.subrange(0, i as int),
    {
        r.push(v[i]);
    }
    assert(v@.subrange(0, n as int) =~= v@);
    r
}

/// Copy an optional byte field.
pub fn copy_opt_bytes(o: &Option<Vec<u8>>) -> (r: Option<Vec<u8>>)
    ensures
        opt_bytes_view(r) == opt_bytes_view(*o),
{
    match o {
        Some(v) => Some(copy_bytes(v)),
        None => None,
    }
}

/// Compare two byte vectors for equality.
pub fn bytes_eq(a: &Vec<u8>, b: &Vec<u8>) -> (r: bool)
    ensures
        r == (a@ == b@),
{
    if a.len() != b.len() {
        assert(a@ != b@);
        return false;
    }
    let n = a.len();
    for i in 0..n
        invariant
            n == a@.len() && n == b@.len(),
            forall|j: int| 0 <= j < i ==> a@[j] == b@[j],
    {
        if a[i] != b[i] {
            return false;
        }
    }
    assert(a@ =~= b@);
    true
}

/// Compare two optional byte fields for equality.
pub fn opt_bytes_eq(a: &Option<Vec<u8>>, b: &Option<Vec<u8>>) -> (r: bool)
    ensures
        r == (opt_bytes_view(*a) == opt_bytes_view(*b)),
{
    match (a, b) {
        (Some(x), Some(y)) => bytes_eq(x, y),
        (None, None) => true,
        _ => false,
    }
}

impl Clone for Address {
    /// Cloning preserves the record's value.
    fn clone(&self) -> (r: Self)
        ensures
            r@ == self@,
    {
        Address {
            lat: self.lat,
            lon: self.lon,
            number: copy_opt_bytes(&self.number),
            street: copy_opt_bytes(&self.street),
            unit: copy_opt_bytes(&self.unit),
            city: copy_opt_bytes(&self.city),
            district: copy_opt_bytes(&self.district),
            region: copy_opt_bytes(&self.region),
            postcode: copy_opt_bytes(&self.postcode),
        }
    }
}

impl Address {
    /// Number of populated fields; the two coordinates always count.
    pub fn count_non_empty_fields(&self) -> (r: usize)
        ensures
            r == self@.count_non_empty_fields(),
            2 <= r <= NB_FIELDS,
    {
        let mut r: usize = 2;
        if self.number.is_some() {
            r += 1;
        }
        if self.street.is_some() {
            r += 1;
        }
        if self.unit.is_some() {
            r += 1;
        }
        if self.city.is_some() {
            r += 1;
        }
        if self.district.is_some() {
            r += 1;
        }
        if self.region.is_some() {
            r += 1;
        }
        if self.postcode.is_some() {
            r += 1;
        }
        r
    }

    /// Whether the record may enter the store: street present, house number
    /// present, non-empty and not the `"S/N"` sentinel.
    pub fn is_eligible(&self) -> (r: bool)
        ensures
            r == self@.eligible(),
    {
        match (&self.number, &self.street) {
            (Some(n), Some(_)) => {
                if n.len() == 0 {
                    return false;
                }
                let is_sentinel = n.len() == 3 && n[0] == 83 && n[1] == 47 && n[2] == 78;
                proof {
                    if n@.len() == 3 && n@[0] == 83 && n@[1] == 47 && n@[2] == 78 {
                        assert(n@ =~= sn_sentinel());
                    }
                }
                !is_sentinel
            },
            _ => false,
        }
    }

    /// Whether two records share the store's natural key.
    pub fn same_natural_key(&self, other: &Address) -> (r: bool)
        ensures
            r == (self@.natural_key() == other@.natural_key()),
    {
        self.lat == other.lat && self.lon == other.lon && opt_bytes_eq(
            &self.number,
            &other.number,
        ) && opt_bytes_eq(&self.street, &other.street) && opt_bytes_eq(&self.city, &other.city)
    }
}


/// One labelled field for the address-matching primitive: a single
/// `(label, value)` pair when the field is present, nothing otherwise.
pub open spec fn labeled(label: Seq<u8>, field: Option<Seq<u8>>) -> Seq<(Seq<u8>, Seq<u8>)> {
    match field {
        Some(v) => seq![(label, v)],
        None => Seq::empty(),
    }
}

/// The labelled representation an address hands to the address-matching
/// primitive: one `(label, value)` pair per present textual field, in a
/// fixed order, under the labels the primitive knows
/// (`house_number`, `road`, `unit`, `city`, `state_district`,
/// `country_region`, `postcode`).
pub open spec fn postal_repr_spec(a: AddressV) -> Seq<(Seq<u8>, Seq<u8>)> {
    labeled(seq![104u8, 111, 117, 115, 101, 95, 110, 117, 109, 98, 101, 114], a.number) + labeled(
        seq![114u8, 111, 97, 100],
        a.street,
    ) + labeled(seq![117u8, 110, 105, 116], a.unit) + labeled(seq![99u8, 105, 116, 121], a.city)
        + labeled(
        seq![115u8, 116, 97, 116, 101, 95, 100, 105, 115, 116, 114, 105, 99, 116],
        a.district,
    ) + labeled(
        seq![99u8, 111, 117, 110, 116, 114, 121, 95, 114, 101, 103, 105, 111, 110],
        a.region,
    ) + labeled(seq![112u8, 111, 115, 116, 99, 111, 100, 101], a.postcode)
}

/// The labelled field pairs of an address, for the address-matching
/// primitive.
#[verifier::rlimit(80)]
pub fn postal_repr(address: &Address) -> (r: Vec<(Vec<u8>, Vec<u8>)>)
    ensures
        r@.map_values(|p: (Vec<u8>, Vec<u8>)| (p.0@, p.1@)) == postal_repr_spec(address@),
{
    let ghost a = address@;
    let ghost l1 = labeled(seq![104u8, 111, 117, 115, 101, 95, 110, 117, 109, 98, 101, 114], a.number);
    let ghost l2 = labeled(seq![114u8, 111, 97, 100], a.street);
    let ghost l3 = labeled(seq![117u8, 110, 105, 116], a.unit);
    let ghost l4 = labeled(seq![99u8, 105, 116, 121], a.city);
    let ghost l5 = labeled(
        seq![115u8, 116, 97, 116, 101, 95, 100, 105, 115, 116, 114, 105, 99, 116],
        a.district,
    );
    let ghost l6 = labeled(
        seq![99u8, 111, 117, 110, 116, 114, 121, 95, 114, 101, 103, 105, 111, 110],
        a.region,
    );
    let ghost l7 = labeled(seq![112u8, 111, 115, 116, 99, 111, 100, 101], a.postcode);
    let mut r: Vec<(Vec<u8>, Vec<u8>)> = Vec::new();
    if let Some(f) = &address.number {
        r.push((vec![104u8, 111, 117, 115, 101, 95, 110, 117, 109, 98, 101, 114], copy_bytes(f)));
    }
    proof {
        assert(r@.map_values(|p: (Vec<u8>, Vec<u8>)| (p.0@, p.1@)) =~= l1);
    }
    if let Some(f) = &address.street {
        r.push((vec![114u8, 111, 97, 100], copy_bytes(f)));
    }
    proof {
        assert(r@.map_values(|p: (Vec<u8>, Vec<u8>)| (p.0@, p.1@)) =~= l1 + l2);
    }
    if let Some(f) = &address.unit {
        r.push((vec![117u8, 110, 105, 116], copy_bytes(f)));
    }
    proof {
        assert(r@.map_values(|p: (Vec<u8>, Vec<u8>)| (p.0@, p.1@)) =~= l1 + l2 + l3);
    }
    if let Some(f) = &address.city {
        r.push((vec![99u8, 105, 116, 121], copy_bytes(f)));
    }
    proof {
        assert(r@.map_values(|p: (Vec<u8>, Vec<u8>)| (p.0@, p.1@)) =~= l1 + l2 + l3 + l4);
    }
    if let Some(f) = &address.district {
        r.push((
            vec![115u8, 116, 97, 116, 101, 95, 100, 105, 115, 116, 114, 105, 99, 116],
            copy_bytes(f),
        ));
    }
    proof {
        assert(r@.map_values(|p: (Vec<u8>, Vec<u8>)| (p.0@, p.1@)) =~= l1 + l2 + l3 + l4 + l5);
    }
    if let Some(f) = &address.region {
        r.push((
            vec![99u8, 111, 117, 110, 116, 114, 121, 95, 114, 101, 103, 105, 111, 110],
            copy_bytes(f),
        ));
    }
    proof {
        assert(r@.map_values(|p: (Vec<u8>, Vec<u8>)| (p.0@, p.1@)) =~= l1 + l2 + l3 + l4 + l5
            + l6);
    }
    if let Some(f) = &address.postcode {
        r.push((vec![112u8, 111, 115, 116, 99, 111, 100, 101], copy_bytes(f)));
    }
    proof {
        assert(r@.map_values(|p: (Vec<u8>, Vec<u8>)| (p.0@, p.1@)) =~= l1 + l2 + l3 + l4 + l5 + l6
            + l7);
        assert(postal_repr_spec(a) == l1 + l2 + l3 + l4 + l5 + l6 + l7);
    }
    r
}

} // verus!
