//! The CSV output record and its text format.
//!
//! A surviving address is emitted as one CSV row with the fixed column
//! order `LAT, LON, NUMBER, STREET, UNIT, CITY, DISTRICT, REGION,
//! POSTCODE`. An absent field is the empty string, never a null marker.
//! Coordinates are printed in degrees with seven decimal places, the
//! store's fixed-point resolution, so the text round-trips exactly.

use vstd::prelude::*;
use crate::address::{Address, AddressV, opt_bytes_view, copy_bytes};

verus! {

/// One output record: every field as plain text bytes, an absent field
/// as the empty string.
pub struct OpenAddress {
    pub lat: i64,
    pub lon: i64,
    pub number: Vec<u8>,
    pub street: Vec<u8>,
    pub unit: Vec<u8>,
    pub city: Vec<u8>,
    pub district: Vec<u8>,
    pub region: Vec<u8>,
    pub postcode: Vec<u8>,
}

/// Mathematical value of an output record.
pub ghost struct OpenAddressV {
    pub lat: i64,
    pub lon: i64,
    pub number: Seq<u8>,
    pub street: Seq<u8>,
    pub unit: Seq<u8>,
    pub city: Seq<u8>,
    pub district: Seq<u8>,
    pub region: Seq<u8>,
    pub postcode: Seq<u8>,
}

impl View for OpenAddress {
    type V = OpenAddressV;

    open spec fn view(&self) -> OpenAddressV {
        OpenAddressV {
            lat: self.lat,
            lon: self.lon,
            number: self.number@,
            street: self.street@,
            unit: self.unit@,
            city: self.city@,
            district: self.district@,
            region: self.region@,
            postcode: self.postcode@,
        }
    }
}

/// A present field's bytes, or the empty string.
pub open spec fn field_or_empty(o: Option<Seq<u8>>) -> Seq<u8> {
    match o {
        Some(f) => f,
        None => Seq::empty(),
    }
}

/// The empty string read back as an absent field.
pub open spec fn opt_of_field(f: Seq<u8>) -> Option<Seq<u8>> {
    if f.len() == 0 {
        None
    } else {
        Some(f)
    }
}

/// The output record of an address.
pub open spec fn record_of_address_spec(a: AddressV) -> OpenAddressV {
    OpenAddressV {
        lat: a.lat,
        lon: a.lon,
        number: field_or_empty(a.number),
        street: field_or_empty(a.street),
        unit: field_or_empty(a.unit),
        city: field_or_empty(a.city),
        district: field_or_empty(a.district),
        region: field_or_empty(a.region),
        postcode: field_or_empty(a.postcode),
    }
}

/// The address read back from an output record.
pub open spec fn address_of_record_spec(r: OpenAddressV) -> AddressV {
    AddressV {
        lat: r.lat,
        lon: r.lon,
        number: opt_of_field(r.number),
        street: opt_of_field(r.street),
        unit: opt_of_field(r.unit),
        city: opt_of_field(r.city),
        district: opt_of_field(r.district),
        region: opt_of_field(r.region),
        postcode: opt_of_field(r.postcode),
    }
}

/// Whether no present field of the address is the empty string; only the
/// empty string stands for absence in the output.
pub open spec fn fields_non_empty(a: AddressV) -> bool {
    &&& (a.number matches Some(f) ==> f.len() > 0)
    &&& (a.street matches Some(f) ==> f.len() > 0)
    &&& (a.unit matches Some(f) ==> f.len() > 0)
    &&& (a.city matches Some(f) ==> f.len() > 0)
    &&& (a.district matches Some(f) ==> f.len() > 0)
    &&& (a.region matches Some(f) ==> f.len() > 0)
    &&& (a.postcode matches Some(f) ==> f.len() > 0)
}

/// Law: writing an address as an output record and reading it back
/// reconstructs the address, field for field, provided no present field
/// is the empty string (which the record writes the same as absence).
pub proof fn lemma_record_round_trip(a: AddressV)
    requires
        fields_non_empty(a),
    ensures
        address_of_record_spec(record_of_address_spec(a)) == a,
{
    let b = address_of_record_spec(record_of_address_spec(a));
    assert(b.number == a.number) by {
        match a.number {
            Some(f) => {
                assert(f.len() > 0);
            },
            None => {
            },
        }
    }
    assert(b.street == a.street) by {
        match a.street {
            Some(f) => {
                assert(f.len() > 0);
            },
            None => {
            },
        }
    }
    assert(b.unit == a.unit) by {
        match a.unit {
            Some(f) => {
                assert(f.len() > 0);
            },
            None => {
            },
        }
    }
    assert(b.city == a.city) by {
        match a.city {
            Some(f) => {
                assert(f.len() > 0);
            },
            None => {
            },
        }
    }
    assert(b.district == a.district) by {
        match a.district {
            Some(f) => {
                assert(f.len() > 0);
            },
            None => {
            },
        }
    }
    assert(b.region == a.region) by {
        match a.region {
            Some(f) => {
                assert(f.len() > 0);
            },
            None => {
            },
        }
    }
    assert(b.postcode == a.postcode) by {
        match a.postcode {
            Some(f) => {
                assert(f.len() > 0);
            },
            None => {
            },
        }
    }
}

/// Law: reading an output record as an address and writing it again
/// reproduces the record exactly, for every record.
pub proof fn lemma_record_round_trip_rev(r: OpenAddressV)
    ensures
        record_of_address_spec(address_of_record_spec(r)) == r,
{
    let b = record_of_address_spec(address_of_record_spec(r));
    assert(b.number =~= r.number);
    assert(b.street =~= r.street);
    assert(b.unit =~= r.unit);
    assert(b.city =~= r.city);
    assert(b.district =~= r.district);
    assert(b.region =~= r.region);
    assert(b.postcode =~= r.postcode);
}

impl OpenAddress {
    /// The output record of an address.
    pub fn from_address(a: &Address) -> (r: OpenAddress)
        ensures
            r@ == record_of_address_spec(a@),
    {
        OpenAddress {
            lat: a.lat,
            lon: a.lon,
            number: bytes_or_empty(&a.number),
            street: bytes_or_empty(&a.street),
            unit: bytes_or_empty(&a.unit),
            city: bytes_or_empty(&a.city),
            district: bytes_or_empty(&a.district),
            region: bytes_or_empty(&a.region),
            postcode: bytes_or_empty(&a.postcode),
        }
    }

    /// The address this record stands for.
    pub fn to_address(&self) -> (r: Address)
        ensures
            r@ == address_of_record_spec(self@),
    {
        Address {
            lat: self.lat,
            lon: self.lon,
            number: empty_as_none(&self.number),
            street: empty_as_none(&self.street),
            unit: empty_as_none(&self.unit),
            city: empty_as_none(&self.city),
            district: empty_as_none(&self.district),
            region: empty_as_none(&self.region),
            postcode: empty_as_none(&self.postcode),
        }
    }
}

/// A present field's bytes, or the empty vector.
fn bytes_or_empty(o: &Option<Vec<u8>>) -> (r: Vec<u8>)
    ensures
        r@ == field_or_empty(opt_bytes_view(*o)),
{
    match o {
        Some(f) => copy_bytes(f),
        None => Vec::new(),
    }
}

/// The empty vector read back as an absent field.
fn empty_as_none(f: &Vec<u8>) -> (r: Option<Vec<u8>>)
    ensures
        opt_bytes_view(r) == opt_of_field(f@),
{
    if f.len() == 0 {
        None
    } else {
        Some(copy_bytes(f))
    }
}


/// Decimal digits of `n`, most significant first, no sign and no
/// leading zero (except for zero itself).
pub open spec fn dec_spec(n: nat) -> Seq<u8>
    decreases n,
{
    if n < 10 {
        seq![(48 + n) as u8]
    } else {
        dec_spec((n / 10) as nat).push((48 + n % 10) as u8)
    }
}

/// Decimal digits of `n` zero-padded to exactly `w` digits.
pub open spec fn dec_pad_spec(n: nat, w: nat) -> Seq<u8>
    decreases w,
{
    if w == 0 {
        Seq::empty()
    } else {
        dec_pad_spec((n / 10) as nat, (w - 1) as nat).push((48 + n % 10) as u8)
    }
}

/// The magnitude of a coordinate.
pub open spec fn coord_mag(v: i64) -> nat {
    if v >= 0 {
        v as nat
    } else {
        (-(v as int)) as nat
    }
}

/// A coordinate as text: optional minus sign, the whole degrees, a
/// decimal point, and exactly seven fractional digits.
pub open spec fn coord_bytes_spec(v: i64) -> Seq<u8> {
    let mag = coord_mag(v);
    let sign: Seq<u8> = if v < 0 {
        seq![45u8]
    } else {
        Seq::empty()
    };
    sign + dec_spec((mag / 10_000_000) as nat) + seq![46u8] + dec_pad_spec(
        (mag % 10_000_000) as nat,
        7,
    )
}

/// Numeric value of a digit string, most significant first.
pub open spec fn fold_digits(s: Seq<u8>) -> int
    decreases s.len(),
{
    if s.len() == 0 {
        0
    } else {
        fold_digits(s.drop_last()) * 10 + (s.last() - 48)
    }
}

/// The digits of `n` are decimal digits folding back to `n`, and the
/// first is nonzero unless `n` is zero.
pub proof fn lemma_dec_spec_props(n: nat)
    ensures
        dec_spec(n).len() >= 1,
        forall|i: int| 0 <= i < dec_spec(n).len() ==> 48 <= #[trigger] dec_spec(n)[i] <= 57,
        fold_digits(dec_spec(n)) == n,
        n >= 1 ==> dec_spec(n)[0] != 48,
        n >= 10 ==> dec_spec(n).len() >= 2,
    decreases n,
{
    if n < 10 {
        assert(dec_spec(n) == seq![(48 + n) as u8]);
        assert(dec_spec(n).drop_last() =~= Seq::<u8>::empty());
        assert(fold_digits(Seq::<u8>::empty()) == 0);
        assert(fold_digits(dec_spec(n)) == 0 * 10 + (48 + n - 48));
    } else {
        lemma_dec_spec_props((n / 10) as nat);
        let d = dec_spec((n / 10) as nat);
        assert(dec_spec(n) == d.push((48 + n % 10) as u8));
        assert(dec_spec(n).drop_last() =~= d);
        assert(fold_digits(dec_spec(n)) == fold_digits(d) * 10 + (n % 10));
        assert(n / 10 * 10 + n % 10 == n) by {
            vstd::arithmetic::div_mod::lemma_fundamental_div_mod(n as int, 10);
        }
        assert(dec_spec(n)[0] == d[0]);
    }
}

/// The padded digits of `n` are `w` decimal digits folding back to `n`.
pub proof fn lemma_dec_pad_props(n: nat, w: nat)
    requires
        n < vstd::arithmetic::power::pow(10, w),
    ensures
        dec_pad_spec(n, w).len() == w,
        forall|i: int| 0 <= i < w ==> 48 <= #[trigger] dec_pad_spec(n, w)[i] <= 57,
        fold_digits(dec_pad_spec(n, w)) == n,
    decreases w,
{
    vstd::arithmetic::power::lemma_pow_positive(10, w);
    if w == 0 {
        assert(vstd::arithmetic::power::pow(10, 0) == 1) by {
            vstd::arithmetic::power::lemma_pow0(10);
        }
        assert(n == 0);
    } else {
        assert(vstd::arithmetic::power::pow(10, w) == vstd::arithmetic::power::pow(
            10,
            (w - 1) as nat,
        ) * 10) by {
            vstd::arithmetic::power::lemma_pow1(10);
            vstd::arithmetic::power::lemma_pow_adds(10, (w - 1) as nat, 1);
        }
        assert(n / 10 < vstd::arithmetic::power::pow(10, (w - 1) as nat)) by {
            vstd::arithmetic::div_mod::lemma_multiply_divide_lt(
                n as int,
                10,
                vstd::arithmetic::power::pow(10, (w - 1) as nat) as int,
            );
        }
        lemma_dec_pad_props((n / 10) as nat, (w - 1) as nat);
        let d = dec_pad_spec((n / 10) as nat, (w - 1) as nat);
        assert(dec_pad_spec(n, w) == d.push((48 + n % 10) as u8));
        assert(dec_pad_spec(n, w).drop_last() =~= d);
        assert((48 + n % 10) as u8 >= 48 && (48 + n % 10) as u8 <= 57) by {
            vstd::arithmetic::div_mod::lemma_mod_division_less_than_divisor(n as int, 10);
            vstd::arithmetic::div_mod::lemma_mod_decreases(n, 10);
        }
        assert(fold_digits(dec_pad_spec(n, w)) == fold_digits(d) * 10 + (n % 10));
        assert(n / 10 * 10 + n % 10 == n) by {
            vstd::arithmetic::div_mod::lemma_fundamental_div_mod(n as int, 10);
        }
    }
}


/// Append the decimal digits of `n`.
fn push_dec(out: &mut Vec<u8>, n: u64)
    ensures
        final(out)@ == old(out)@ + dec_spec(n as nat),
    decreases n,
{
    if n < 10 {
        out.push(48 + n as u8);
        proof {
            assert(out@ =~= old(out)@ + dec_spec(n as nat));
        }
    } else {
        push_dec(out, n / 10);
        out.push(48 + (n % 10) as u8);
        proof {
            assert(out@ =~= old(out)@ + dec_spec(n as nat));
        }
    }
}

/// Append the decimal digits of `n`, zero-padded to `w` digits.
fn push_dec_pad(out: &mut Vec<u8>, n: u64, w: usize)
    ensures
        final(out)@ == old(out)@ + dec_pad_spec(n as nat, w as nat),
    decreases w,
{
    if w == 0 {
        proof {
            assert(out@ =~= old(out)@ + dec_pad_spec(n as nat, 0));
        }
    } else {
        push_dec_pad(out, n / 10, w - 1);
        out.push(48 + (n % 10) as u8);
        proof {
            assert(out@ =~= old(out)@ + dec_pad_spec(n as nat, w as nat));
        }
    }
}

/// A coordinate as text: degrees with exactly seven decimal places.
pub fn coord_to_bytes(v: i64) -> (r: Vec<u8>)
    ensures
        r@ == coord_bytes_spec(v),
{
    let mut out: Vec<u8> = Vec::new();
    let mag: u64 = if v < 0 {
        (-(v as i128)) as u64
    } else {
        v as u64
    };
    proof {
        assert(mag == coord_mag(v));
    }
    if v < 0 {
        out.push(45);
    }
    let ip = mag / 10_000_000;
    let fr = mag % 10_000_000;
    push_dec(&mut out, ip);
    out.push(46);
    push_dec_pad(&mut out, fr, 7);
    proof {
        assert(out@ =~= coord_bytes_spec(v));
    }
    out
}

/// Whether a byte is a decimal digit.
pub open spec fn is_digit(c: u8) -> bool {
    48 <= c <= 57
}

/// Whether every byte of a string is a decimal digit.
pub open spec fn all_digits(s: Seq<u8>) -> bool {
    forall|i: int| 0 <= i < s.len() ==> is_digit(#[trigger] s[i])
}

/// What a coordinate string parses to: exactly the canonical form — an
/// optional minus sign, whole degrees without a leading zero, a decimal
/// point and seven fractional digits — gives a value; anything else, or
/// a value outside the 64-bit fixed-point range, gives nothing.
pub open spec fn parse_coord_spec(s: Seq<u8>) -> Option<i64> {
    let neg = s.len() > 0 && s[0] == 45;
    let body = if neg {
        s.drop_first()
    } else {
        s
    };
    if body.len() < 9 {
        None
    } else {
        let ip_len = body.len() - 8;
        let ip = body.take(ip_len as int);
        let fr = body.skip(ip_len as int + 1);
        if all_digits(ip) && body[ip_len as int] == 46 && all_digits(fr) && (ip.len() == 1 || ip[0]
            != 48) {
            let mag = fold_digits(ip) * 10_000_000 + fold_digits(fr);
            if neg && mag == 0 {
                None
            } else if !neg && mag <= i64::MAX {
                Some(mag as i64)
            } else if neg && mag <= i64::MAX as int + 1 {
                Some((-mag) as i64)
            } else {
                None
            }
        } else {
            None
        }
    }
}

/// A digit string's value is below ten to its length.
proof fn lemma_fold_upper(s: Seq<u8>)
    requires
        all_digits(s),
    ensures
        0 <= fold_digits(s) < vstd::arithmetic::power::pow(10, s.len()),
    decreases s.len(),
{
    vstd::arithmetic::power::lemma_pow_positive(10, s.len());
    if s.len() > 0 {
        assert(all_digits(s.drop_last())) by {
            assert(forall|i: int|
                0 <= i < s.drop_last().len() ==> #[trigger] s.drop_last()[i] == s[i]);
        }
        lemma_fold_upper(s.drop_last());
        assert(vstd::arithmetic::power::pow(10, s.len()) == vstd::arithmetic::power::pow(
            10,
            (s.len() - 1) as nat,
        ) * 10) by {
            vstd::arithmetic::power::lemma_pow1(10);
            vstd::arithmetic::power::lemma_pow_adds(10, (s.len() - 1) as nat, 1);
        }
        assert(is_digit(s[s.len() - 1]));
    }
}

/// A digit string without a leading zero has a value of at least ten to
/// one less than its length.
proof fn lemma_fold_lower(s: Seq<u8>)
    requires
        all_digits(s),
        s.len() >= 1,
        s[0] != 48,
    ensures
        fold_digits(s) >= vstd::arithmetic::power::pow(10, (s.len() - 1) as nat),
    decreases s.len(),
{
    if s.len() == 1 {
        assert(vstd::arithmetic::power::pow(10, 0) == 1) by {
            vstd::arithmetic::power::lemma_pow0(10);
        }
        assert(is_digit(s[0]));
        assert(s.drop_last() =~= Seq::<u8>::empty());
        assert(fold_digits(Seq::<u8>::empty()) == 0);
        assert(fold_digits(s) == (s[0] - 48));
    } else {
        assert(all_digits(s.drop_last())) by {
            assert(forall|i: int|
                0 <= i < s.drop_last().len() ==> #[trigger] s.drop_last()[i] == s[i]);
        }
        assert(s.drop_last()[0] == s[0]);
        lemma_fold_lower(s.drop_last());
        assert(vstd::arithmetic::power::pow(10, (s.len() - 1) as nat)
            == vstd::arithmetic::power::pow(10, (s.len() - 2) as nat) * 10) by {
            vstd::arithmetic::power::lemma_pow1(10);
            vstd::arithmetic::power::lemma_pow_adds(10, (s.len() - 2) as nat, 1);
        }
        assert(fold_digits(s.drop_last()) * 10 >= vstd::arithmetic::power::pow(
            10,
            (s.len() - 2) as nat,
        ) * 10) by {
            vstd::arithmetic::mul::lemma_mul_inequality(
                vstd::arithmetic::power::pow(10, (s.len() - 2) as nat),
                fold_digits(s.drop_last()),
                10,
            );
        }
        assert(is_digit(s[s.len() - 1]));
    }
}

/// Law: a coordinate written as text reads back to the same value, for
/// every 64-bit fixed-point coordinate.
pub proof fn lemma_coord_round_trip(v: i64)
    ensures
        parse_coord_spec(coord_bytes_spec(v)) == Some(v),
{
    let mag = coord_mag(v);
    let ip: nat = (mag / 10_000_000) as nat;
    let fr: nat = (mag % 10_000_000) as nat;
    lemma_dec_spec_props(ip);
    assert(fr < vstd::arithmetic::power::pow(10, 7)) by {
        reveal_with_fuel(vstd::arithmetic::power::pow, 8);
    }
    lemma_dec_pad_props(fr, 7);
    let d = dec_spec(ip);
    let p = dec_pad_spec(fr, 7);
    let s = coord_bytes_spec(v);
    let body_expect = d + seq![46u8] + p;
    if v < 0 {
        assert(s[0] == 45);
        assert(s.drop_first() =~= body_expect);
    } else {
        assert(s[0] == d[0]);
        assert(is_digit(d[0]));
        assert(s[0] != 45);
        assert(s =~= body_expect);
    }
    let body = body_expect;
    assert(body.len() == d.len() + 8);
    let ip_len = body.len() - 8;
    assert(ip_len == d.len());
    assert(body.take(ip_len as int) =~= d);
    assert(body[ip_len as int] == 46);
    assert(body.skip(ip_len as int + 1) =~= p);
    assert(ip == 0 ==> d.len() == 1);
    assert(d.len() == 1 || d[0] != 48) by {
        if d.len() > 1 {
            assert(ip >= 1) by {
                if ip == 0 {
                    assert(dec_spec(0).len() == 1);
                }
            }
        }
    }
    assert(fold_digits(d) == ip && fold_digits(p) == fr);
    let m = fold_digits(d) * 10_000_000 + fold_digits(p);
    assert(m == ip * 10_000_000 + fr);
    assert(ip * 10_000_000 + fr == mag) by {
        vstd::arithmetic::div_mod::lemma_fundamental_div_mod(mag as int, 10_000_000);
    }
    if v >= 0 {
        assert(mag == v);
        assert(m <= i64::MAX);
        assert(parse_coord_spec(s) == Some(mag as i64));
    } else {
        assert(mag >= 1);
        assert(mag <= i64::MAX as int + 1);
        assert((-(m as int)) == v as int);
        assert(parse_coord_spec(s) == Some((-(m as int)) as i64));
    }
}

/// Numeric value of a digit run, accumulated left to right.
fn fold_digits_exec(bytes: &Vec<u8>, start: usize, len: usize) -> (r: u64)
    requires
        start + len <= bytes@.len(),
        all_digits(bytes@.subrange(start as int, start as int + len as int)),
        len <= 12,
    ensures
        r == fold_digits(bytes@.subrange(start as int, start as int + len as int)),
        r < 0x1000_0000_0000_0000,
{
    let ghost whole = bytes@.subrange(start as int, start as int + len as int);
    let total = bytes.len();
    let mut acc: u64 = 0;
    proof {
        assert(whole.take(0) =~= Seq::<u8>::empty());
        vstd::arithmetic::power::lemma_pow_positive(10, 0);
    }
    for k in 0..len
        invariant
            total == bytes@.len(),
            start + len <= total,
            start + len <= bytes@.len(),
            whole == bytes@.subrange(start as int, start as int + len as int),
            all_digits(whole),
            len <= 12,
            acc == fold_digits(whole.take(k as int)),
            acc < vstd::arithmetic::power::pow(10, k as nat),
            acc < 0x1000_0000_0000_0000,
    {
        let c = bytes[start + k];
        proof {
            assert(whole[k as int] == bytes@[start + k]);
            assert(is_digit(whole[k as int]));
            assert(whole.take(k + 1).drop_last() =~= whole.take(k as int));
            assert(whole.take(k + 1).last() == whole[k as int]);
            assert(vstd::arithmetic::power::pow(10, (k + 1) as nat)
                == vstd::arithmetic::power::pow(10, k as nat) * 10) by {
                vstd::arithmetic::power::lemma_pow1(10);
                vstd::arithmetic::power::lemma_pow_adds(10, k as nat, 1);
            }
            assert(vstd::arithmetic::power::pow(10, (k + 1) as nat)
                <= vstd::arithmetic::power::pow(10, 12)) by {
                vstd::arithmetic::power::lemma_pow_increases(10, (k + 1) as nat, 12);
            }
            assert(vstd::arithmetic::power::pow(10, 12) == 0xe8d4a51000) by {
                reveal_with_fuel(vstd::arithmetic::power::pow, 13);
            }
        }
        acc = acc * 10 + ((c - 48) as u64);
    }
    proof {
        assert(whole.take(len as int) =~= whole);
    }
    acc
}

/// Read a coordinate written by `coord_to_bytes`: the canonical decimal
/// form with seven fractional digits.
pub fn parse_coord(bytes: &Vec<u8>) -> (r: Option<i64>)
    ensures
        r == parse_coord_spec(bytes@),
{
    let n = bytes.len();
    let neg = n > 0 && bytes[0] == 45;
    let start: usize = if neg {
        1
    } else {
        0
    };
    let ghost body = if neg {
        bytes@.drop_first()
    } else {
        bytes@
    };
    proof {
        assert(body =~= bytes@.skip(start as int));
    }
    if n - start < 9 {
        return None;
    }
    let ip_len = n - start - 8;
    let ghost ip = body.take(ip_len as int);
    let ghost fr = body.skip(ip_len as int + 1);
    proof {
        assert(ip =~= bytes@.subrange(start as int, start as int + ip_len as int));
        assert(fr =~= bytes@.subrange(
            start as int + ip_len as int + 1,
            start as int + ip_len as int + 8,
        ));
    }
    let mut digits_ok = true;
    for k in 0..ip_len
        invariant
            start + ip_len + 8 == n,
            n == bytes@.len(),
            ip == bytes@.subrange(start as int, start as int + ip_len as int),
            digits_ok == all_digits(ip.take(k as int)),
    {
        proof {
            assert(ip.take(k + 1).drop_last() =~= ip.take(k as int));
            assert(ip.take(k + 1).last() == ip[k as int]);
            assert(forall|i: int|
                0 <= i < k ==> ip.take(k as int)[i] == #[trigger] ip.take(k + 1)[i]);
        }
        let c = bytes[start + k];
        proof {
            assert(ip[k as int] == bytes@[start + k]);
        }
        if c < 48 || c > 57 {
            digits_ok = false;
        }
        proof {
            if digits_ok {
                assert(all_digits(ip.take(k + 1))) by {
                    assert(forall|i: int|
                        0 <= i < k + 1 ==> is_digit(#[trigger] ip.take(k + 1)[i]));
                }
            } else {
                if all_digits(ip.take(k + 1)) {
                    assert(is_digit(ip.take(k + 1)[k as int]));
                    assert(all_digits(ip.take(k as int)));
                }
            }
        }
    }
    proof {
        assert(ip.take(ip_len as int) =~= ip);
    }
    let mut fr_ok = true;
    for k in 0..8usize
        invariant
            start + ip_len + 8 == n,
            n == bytes@.len(),
            ip == bytes@.subrange(start as int, start as int + ip_len as int),
            fr == bytes@.subrange(
                start as int + ip_len as int + 1,
                start as int + ip_len as int + 8,
            ),
            k >= 1 ==> fr_ok == ((bytes@[start as int + ip_len as int] == 46) && all_digits(
                fr.take(k as int - 1),
            )),
            k == 0 ==> fr_ok,
    {
        let c = bytes[start + ip_len + k];
        if k == 0 {
            if c != 46 {
                fr_ok = false;
            }
            proof {
                assert(fr.take(0) =~= Seq::<u8>::empty());
            }
        } else {
            proof {
                assert(fr.take(k as int).drop_last() =~= fr.take(k as int - 1));
                assert(fr.take(k as int).last() == fr[k as int - 1]);
                assert(fr[k as int - 1] == bytes@[start + ip_len + k]);
                assert(forall|i: int|
                    0 <= i < k - 1 ==> fr.take(k as int - 1)[i] == #[trigger] fr.take(
                        k as int,
                    )[i]);
            }
            if c < 48 || c > 57 {
                fr_ok = false;
            }
            proof {
                if fr_ok {
                    assert(all_digits(fr.take(k as int))) by {
                        assert(forall|i: int|
                            0 <= i < k ==> is_digit(#[trigger] fr.take(k as int)[i]));
                    }
                } else {
                    if bytes@[start as int + ip_len as int] == 46 && all_digits(fr.take(k as int)) {
                        assert(is_digit(fr.take(k as int)[k as int - 1]));
                        assert(all_digits(fr.take(k as int - 1)));
                    }
                }
            }
        }
    }
    proof {
        assert(fr.take(7) =~= fr);
        assert(fr.len() == 7);
    }
    let leading_ok = ip_len == 1 || bytes[start] != 48;
    proof {
        assert(ip[0] == bytes@[start as int]);
    }
    if !digits_ok || !fr_ok || !leading_ok {
        return None;
    }
    if ip_len > 12 {
        proof {
            lemma_fold_lower(ip);
            assert(vstd::arithmetic::power::pow(10, (ip_len - 1) as nat)
                >= vstd::arithmetic::power::pow(10, 12)) by {
                vstd::arithmetic::power::lemma_pow_increases(10, 12, (ip_len - 1) as nat);
            }
            assert(vstd::arithmetic::power::pow(10, 12) == 0xe8d4a51000) by {
                reveal_with_fuel(vstd::arithmetic::power::pow, 13);
            }
            lemma_fold_upper(fr);
            assert(vstd::arithmetic::power::pow(10, 7) == 10_000_000) by {
                reveal_with_fuel(vstd::arithmetic::power::pow, 8);
            }
            assert(fold_digits(ip) * 10_000_000 >= 0xe8d4a51000 * 10_000_000) by {
                vstd::arithmetic::mul::lemma_mul_inequality(
                    0xe8d4a51000,
                    fold_digits(ip),
                    10_000_000,
                );
            }
        }
        return None;
    }
    let ip_val = fold_digits_exec(bytes, start, ip_len);
    let fr_val = fold_digits_exec(bytes, start + ip_len + 1, 7);
    proof {
        lemma_fold_upper(fr);
        assert(vstd::arithmetic::power::pow(10, 7) == 10_000_000) by {
            reveal_with_fuel(vstd::arithmetic::power::pow, 8);
        }
    }
    let mag: u128 = (ip_val as u128) * 10_000_000 + (fr_val as u128);
    if neg && mag == 0 {
        return None;
    }
    if !neg {
        if mag <= i64::MAX as u128 {
            return Some(mag as i64);
        } else {
            return None;
        }
    }
    if mag <= i64::MAX as u128 + 1 {
        proof {
            assert((-(mag as int)) >= i64::MIN);
        }
        return Some((-(mag as i128)) as i64);
    }
    None
}


/// Whether a CSV field must be quoted: it holds a quote, a comma or a
/// line break.
pub open spec fn field_needs_quoting(f: Seq<u8>) -> bool {
    exists|i: int|
        0 <= i < f.len() && ((#[trigger] f[i]) == 34 || f[i] == 44 || f[i] == 10 || f[i] == 13)
}

/// A field's bytes with every quote doubled.
pub open spec fn escape_quotes(f: Seq<u8>) -> Seq<u8>
    decreases f.len(),
{
    if f.len() == 0 {
        Seq::empty()
    } else {
        (if f[0] == 34 {
            seq![34u8, 34u8]
        } else {
            seq![f[0]]
        }) + escape_quotes(f.drop_first())
    }
}

/// One CSV field: raw bytes, or quoted with doubled quotes when needed.
pub open spec fn encode_field(f: Seq<u8>) -> Seq<u8> {
    if field_needs_quoting(f) {
        seq![34u8] + escape_quotes(f) + seq![34u8]
    } else {
        f
    }
}

/// One CSV row: the encoded fields joined by commas, ended by a newline.
pub open spec fn encode_row(row: Seq<Seq<u8>>) -> Seq<u8>
    decreases row.len(),
{
    if row.len() == 0 {
        seq![10u8]
    } else if row.len() == 1 {
        encode_field(row[0]) + seq![10u8]
    } else {
        encode_field(row[0]) + seq![44u8] + encode_row(row.drop_first())
    }
}

/// A CSV file: its rows one after the other.
pub open spec fn encode_rows(rows: Seq<Seq<Seq<u8>>>) -> Seq<u8>
    decreases rows.len(),
{
    if rows.len() == 0 {
        Seq::empty()
    } else {
        encode_row(rows[0]) + encode_rows(rows.drop_first())
    }
}

/// Appending a row encodes it after the others.
pub proof fn lemma_encode_rows_snoc(rows: Seq<Seq<Seq<u8>>>, row: Seq<Seq<u8>>)
    ensures
        encode_rows(rows.push(row)) == encode_rows(rows) + encode_row(row),
    decreases rows.len(),
{
    if rows.len() == 0 {
        assert(rows.push(row)[0] == row);
        assert(rows.push(row).drop_first() =~= Seq::<Seq<Seq<u8>>>::empty());
        assert(encode_rows(Seq::<Seq<Seq<u8>>>::empty()) =~= Seq::<u8>::empty());
        assert(rows =~= Seq::<Seq<Seq<u8>>>::empty());
        assert(encode_rows(rows.push(row)) =~= encode_rows(rows) + encode_row(row));
    } else {
        assert(rows.push(row)[0] == rows[0]);
        assert(rows.push(row).drop_first() =~= rows.drop_first().push(row));
        lemma_encode_rows_snoc(rows.drop_first(), row);
        assert(encode_rows(rows.push(row)) =~= encode_rows(rows) + encode_row(row));
    }
}

/// Escaping one more byte escapes it after the others.
proof fn lemma_escape_snoc(f: Seq<u8>, c: u8)
    ensures
        escape_quotes(f.push(c)) == escape_quotes(f) + (
        if c == 34 {
            seq![34u8, 34u8]
        } else {
            seq![c]
        }),
    decreases f.len(),
{
    if f.len() == 0 {
        assert(f.push(c)[0] == c);
        assert(f.push(c).drop_first() =~= Seq::<u8>::empty());
        assert(escape_quotes(Seq::<u8>::empty()) =~= Seq::<u8>::empty());
        assert(f =~= Seq::<u8>::empty());
        assert(escape_quotes(f.push(c)) =~= escape_quotes(f) + (
        if c == 34 {
            seq![34u8, 34u8]
        } else {
            seq![c]
        }));
    } else {
        assert(f.push(c)[0] == f[0]);
        assert(f.push(c).drop_first() =~= f.drop_first().push(c));
        lemma_escape_snoc(f.drop_first(), c);
        assert(escape_quotes(f.push(c)) =~= escape_quotes(f) + (
        if c == 34 {
            seq![34u8, 34u8]
        } else {
            seq![c]
        }));
    }
}

/// Whether a field must be quoted.
fn needs_quoting_exec(f: &Vec<u8>) -> (r: bool)
    ensures
        r == field_needs_quoting(f@),
{
    let n = f.len();
    for i in 0..n
        invariant
            n == f@.len(),
            forall|j: int|
                0 <= j < i ==> !((#[trigger] f@[j]) == 34 || f@[j] == 44 || f@[j] == 10 || f@[j]
                    == 13),
    {
        let c = f[i];
        if c == 34 || c == 44 || c == 10 || c == 13 {
            proof {
                assert(f@[i as int] == 34 || f@[i as int] == 44 || f@[i as int] == 10
                    || f@[i as int] == 13);
            }
            return true;
        }
    }
    false
}

/// Append one encoded field.
fn push_field(out: &mut Vec<u8>, f: &Vec<u8>)
    ensures
        final(out)@ == old(out)@ + encode_field(f@),
{
    let ghost base = out@;
    let n = f.len();
    if needs_quoting_exec(f) {
        out.push(34);
        proof {
            assert(escape_quotes(f@.take(0)) =~= Seq::<u8>::empty());
            assert(out@ =~= base + seq![34u8] + escape_quotes(f@.take(0)));
        }
        for i in 0..n
            invariant
                n == f@.len(),
                out@ == base + seq![34u8] + escape_quotes(f@.take(i as int)),
        {
            let c = f[i];
            proof {
                assert(f@.take(i + 1) =~= f@.take(i as int).push(f@[i as int]));
                lemma_escape_snoc(f@.take(i as int), f@[i as int]);
            }
            if c == 34 {
                out.push(34);
                out.push(34);
            } else {
                out.push(c);
            }
            proof {
                assert(out@ =~= base + seq![34u8] + escape_quotes(f@.take(i + 1)));
            }
        }
        out.push(34);
        proof {
            assert(f@.take(n as int) =~= f@);
            assert(out@ =~= base + encode_field(f@));
        }
    } else {
        for i in 0..n
            invariant
                n == f@.len(),
                out@ == base + f@.take(i as int),
        {
            out.push(f[i]);
            proof {
                assert(out@ =~= base + f@.take(i + 1));
            }
        }
        proof {
            assert(f@.take(n as int) =~= f@);
            assert(out@ =~= base + encode_field(f@));
        }
    }
}

/// Append one encoded row.
fn push_row(out: &mut Vec<u8>, row: &Vec<Vec<u8>>)
    ensures
        final(out)@ == old(out)@ + encode_row(row@.map_values(|f: Vec<u8>| f@)),
{
    let ghost rv = row@.map_values(|f: Vec<u8>| f@);
    let ghost target = old(out)@ + encode_row(rv);
    let n = row.len();
    if n == 0 {
        out.push(10);
        proof {
            assert(out@ =~= target);
        }
        return;
    }
    proof {
        assert(rv.skip(0) =~= rv);
    }
    for i in 0..n
        invariant
            n == row@.len(),
            n >= 1,
            rv == row@.map_values(|f: Vec<u8>| f@),
            target == old(out)@ + encode_row(rv),
            i < n ==> out@ + encode_row(rv.skip(i as int)) == target,
            i == n ==> out@ == target,
    {
        proof {
            assert(rv.skip(i as int)[0] == rv[i as int]);
            assert(rv.skip(i as int).drop_first() =~= rv.skip(i + 1));
            assert(rv.skip(i as int).len() == n - i);
        }
        push_field(out, &row[i]);
        if i < n - 1 {
            out.push(44);
            proof {
                assert(out@ + encode_row(rv.skip(i + 1)) =~= target);
            }
        } else {
            out.push(10);
            proof {
                assert(encode_row(rv.skip(i as int)) == encode_field(rv[i as int]) + seq![10u8]);
                assert(out@ =~= target);
            }
        }
    }
}

/// The header row of the output: `LAT, LON, NUMBER, STREET, UNIT, CITY,
/// DISTRICT, REGION, POSTCODE`.
pub open spec fn header_row() -> Seq<Seq<u8>> {
    seq![
        seq![76u8, 65, 84],
        seq![76u8, 79, 78],
        seq![78u8, 85, 77, 66, 69, 82],
        seq![83u8, 84, 82, 69, 69, 84],
        seq![85u8, 78, 73, 84],
        seq![67u8, 73, 84, 89],
        seq![68u8, 73, 83, 84, 82, 73, 67, 84],
        seq![82u8, 69, 71, 73, 79, 78],
        seq![80u8, 79, 83, 84, 67, 79, 68, 69],
    ]
}

/// The fields of one output row: both coordinates as text, then the
/// textual fields in the fixed column order.
pub open spec fn row_of_record(r: OpenAddressV) -> Seq<Seq<u8>> {
    seq![
        coord_bytes_spec(r.lat),
        coord_bytes_spec(r.lon),
        r.number,
        r.street,
        r.unit,
        r.city,
        r.district,
        r.region,
        r.postcode,
    ]
}

/// The whole CSV dump of a list of records: the header row, then one row
/// per record, in order.
pub open spec fn dump_bytes_spec(records: Seq<OpenAddressV>) -> Seq<u8> {
    encode_rows(seq![header_row()] + records.map_values(|r: OpenAddressV| row_of_record(r)))
}

/// The header row's fields.
fn header_fields() -> (r: Vec<Vec<u8>>)
    ensures
        r@.map_values(|f: Vec<u8>| f@) == header_row(),
{
    let mut r: Vec<Vec<u8>> = Vec::new();
    r.push(vec![76u8, 65, 84]);
    r.push(vec![76u8, 79, 78]);
    r.push(vec![78u8, 85, 77, 66, 69, 82]);
    r.push(vec![83u8, 84, 82, 69, 69, 84]);
    r.push(vec![85u8, 78, 73, 84]);
    r.push(vec![67u8, 73, 84, 89]);
    r.push(vec![68u8, 73, 83, 84, 82, 73, 67, 84]);
    r.push(vec![82u8, 69, 71, 73, 79, 78]);
    r.push(vec![80u8, 79, 83, 84, 67, 79, 68, 69]);
    proof {
        assert(r@.map_values(|f: Vec<u8>| f@) =~= header_row());
    }
    r
}

/// The row fields of one record.
fn row_fields(rec: &OpenAddress) -> (r: Vec<Vec<u8>>)
    ensures
        r@.map_values(|f: Vec<u8>| f@) == row_of_record(rec@),
{
    let mut r: Vec<Vec<u8>> = Vec::new();
    r.push(coord_to_bytes(rec.lat));
    r.push(coord_to_bytes(rec.lon));
    r.push(copy_bytes(&rec.number));
    r.push(copy_bytes(&rec.street));
    r.push(copy_bytes(&rec.unit));
    r.push(copy_bytes(&rec.city));
    r.push(copy_bytes(&rec.district));
    r.push(copy_bytes(&rec.region));
    r.push(copy_bytes(&rec.postcode));
    proof {
        assert(r@.map_values(|f: Vec<u8>| f@) =~= row_of_record(rec@));
    }
    r
}

/// Encode a list of records as the output CSV: header row first, then
/// one row per record, fields quoted exactly where needed.
pub fn dump_records(records: &Vec<OpenAddress>) -> (r: Vec<u8>)
    ensures
        r@ == dump_bytes_spec(records@.map_values(|rec: OpenAddress| rec@)),
{
    let ghost recs = records@.map_values(|rec: OpenAddress| rec@);
    let mut out: Vec<u8> = Vec::new();
    let header = header_fields();
    push_row(&mut out, &header);
    proof {
        assert(seq![header_row()] + recs.take(0).map_values(|r2: OpenAddressV| row_of_record(r2))
            =~= seq![header_row()]);
        assert(encode_rows(seq![header_row()]) =~= encode_row(header_row())) by {
            assert(seq![header_row()][0] == header_row());
            assert(seq![header_row()].drop_first() =~= Seq::<Seq<Seq<u8>>>::empty());
            assert(encode_rows(Seq::<Seq<Seq<u8>>>::empty()) =~= Seq::<u8>::empty());
        }
        assert(out@ =~= encode_rows(
            seq![header_row()] + recs.take(0).map_values(|r2: OpenAddressV| row_of_record(r2)),
        ));
    }
    let n = records.len();
    for i in 0..n
        invariant
            n == records@.len(),
            recs == records@.map_values(|rec: OpenAddress| rec@),
            out@ == encode_rows(
                seq![header_row()] + recs.take(i as int).map_values(
                    |r2: OpenAddressV| row_of_record(r2),
                ),
            ),
    {
        let row = row_fields(&records[i]);
        proof {
            let prefix = seq![header_row()] + recs.take(i as int).map_values(
                |r2: OpenAddressV| row_of_record(r2),
            );
            lemma_encode_rows_snoc(prefix, row_of_record(recs[i as int]));
            assert(prefix.push(row_of_record(recs[i as int])) =~= seq![header_row()] + recs.take(
                i + 1,
            ).map_values(|r2: OpenAddressV| row_of_record(r2)));
        }
        push_row(&mut out, &row);
    }
    proof {
        assert(recs.take(n as int) =~= recs);
    }
    out
}


/// One quoted field, read after its opening quote: the field's bytes
/// with doubled quotes folded back, and what follows the closing quote.
pub open spec fn parse_quoted(s: Seq<u8>) -> Option<(Seq<u8>, Seq<u8>)>
    decreases s.len(),
{
    if s.len() == 0 {
        None
    } else if s[0] == 34 {
        if s.len() >= 2 && s[1] == 34 {
            match parse_quoted(s.skip(2)) {
                Some(p) => Some((seq![34u8] + p.0, p.1)),
                None => None,
            }
        } else {
            Some((Seq::empty(), s.skip(1)))
        }
    } else {
        match parse_quoted(s.skip(1)) {
            Some(p) => Some((seq![s[0]] + p.0, p.1)),
            None => None,
        }
    }
}

/// One unquoted field: the bytes up to the first comma or line break,
/// and the rest from that separator on.
pub open spec fn scan_raw(s: Seq<u8>) -> (Seq<u8>, Seq<u8>)
    decreases s.len(),
{
    if s.len() == 0 {
        (Seq::empty(), Seq::empty())
    } else if s[0] == 44 || s[0] == 10 {
        (Seq::empty(), s)
    } else {
        let p = scan_raw(s.skip(1));
        (seq![s[0]] + p.0, p.1)
    }
}

/// One field, quoted or raw.
pub open spec fn parse_field(s: Seq<u8>) -> Option<(Seq<u8>, Seq<u8>)> {
    if s.len() > 0 && s[0] == 34 {
        parse_quoted(s.skip(1))
    } else {
        Some(scan_raw(s))
    }
}

/// Reading a quoted field consumes at least its closing quote.
proof fn lemma_parse_quoted_rest_len(s: Seq<u8>)
    ensures
        parse_quoted(s) matches Some(p) ==> p.1.len() < s.len(),
    decreases s.len(),
{
    if s.len() > 0 {
        if s[0] == 34 && s.len() >= 2 && s[1] == 34 {
            lemma_parse_quoted_rest_len(s.skip(2));
        } else if s[0] != 34 {
            lemma_parse_quoted_rest_len(s.skip(1));
        }
    }
}

/// Reading a raw field consumes nothing past its separator.
proof fn lemma_scan_raw_rest_len(s: Seq<u8>)
    ensures
        scan_raw(s).1.len() <= s.len(),
    decreases s.len(),
{
    if s.len() > 0 && !(s[0] == 44 || s[0] == 10) {
        lemma_scan_raw_rest_len(s.skip(1));
    }
}

/// One row: fields separated by commas, ended by a line break; the rest
/// starts after the line break.
pub open spec fn parse_row(s: Seq<u8>) -> Option<(Seq<Seq<u8>>, Seq<u8>)>
    decreases s.len(),
    via parse_row_dec
{
    match parse_field(s) {
        None => None,
        Some(p) => {
            let f = p.0;
            let rest = p.1;
            if rest.len() == 0 {
                None
            } else if rest[0] == 44 {
                match parse_row(rest.skip(1)) {
                    Some(q) => Some((seq![f] + q.0, q.1)),
                    None => None,
                }
            } else if rest[0] == 10 {
                Some((seq![f], rest.skip(1)))
            } else {
                None
            }
        },
    }
}

#[via_fn]
proof fn parse_row_dec(s: Seq<u8>) {
    if s.len() > 0 && s[0] == 34 {
        lemma_parse_quoted_rest_len(s.skip(1));
    } else {
        lemma_scan_raw_rest_len(s);
    }
}

/// Reading a row consumes at least its line break.
proof fn lemma_parse_row_rest_len(s: Seq<u8>)
    ensures
        parse_row(s) matches Some(p) ==> p.1.len() < s.len(),
    decreases s.len(),
{
    if s.len() > 0 && s[0] == 34 {
        lemma_parse_quoted_rest_len(s.skip(1));
    } else {
        lemma_scan_raw_rest_len(s);
    }
    match parse_field(s) {
        None => {},
        Some(p) => {
            let rest = p.1;
            if rest.len() > 0 && rest[0] == 44 {
                lemma_parse_row_rest_len(rest.skip(1));
            }
        },
    }
}

/// A whole file: rows until the input ends.
pub open spec fn parse_rows(s: Seq<u8>) -> Option<Seq<Seq<Seq<u8>>>>
    decreases s.len(),
    via parse_rows_dec
{
    if s.len() == 0 {
        Some(Seq::empty())
    } else {
        match parse_row(s) {
            None => None,
            Some(p) => match parse_rows(p.1) {
                Some(rs) => Some(seq![p.0] + rs),
                None => None,
            },
        }
    }
}

#[via_fn]
proof fn parse_rows_dec(s: Seq<u8>) {
    if s.len() > 0 {
        lemma_parse_row_rest_len(s);
    }
}

/// Reading a quoted field undoes the quoting: the escaped bytes followed
/// by the closing quote and a separator read back as the field.
proof fn lemma_parse_quoted_escape(f: Seq<u8>, rest: Seq<u8>)
    requires
        rest.len() > 0,
        rest[0] == 44 || rest[0] == 10,
    ensures
        parse_quoted(escape_quotes(f) + seq![34u8] + rest) == Some((f, rest)),
    decreases f.len(),
{
    let s = escape_quotes(f) + seq![34u8] + rest;
    if f.len() == 0 {
        assert(escape_quotes(f) =~= Seq::<u8>::empty());
        assert(s =~= seq![34u8] + rest);
        assert(s[0] == 34);
        assert(s.len() >= 2 ==> s[1] == rest[0]);
        assert(!(s.len() >= 2 && s[1] == 34));
        assert(s.skip(1) =~= rest);
    } else {
        let tail = escape_quotes(f.drop_first());
        assert(escape_quotes(f) == (if f[0] == 34 {
            seq![34u8, 34u8]
        } else {
            seq![f[0]]
        }) + tail);
        lemma_parse_quoted_escape(f.drop_first(), rest);
        if f[0] == 34 {
            assert(s[0] == 34 && s.len() >= 2 && s[1] == 34);
            assert(s.skip(2) =~= tail + seq![34u8] + rest);
            assert(seq![34u8] + f.drop_first() =~= f);
        } else {
            assert(s[0] == f[0]);
            assert(s[0] != 34);
            assert(s.skip(1) =~= tail + seq![34u8] + rest);
            assert(seq![f[0]] + f.drop_first() =~= f);
        }
    }
}

/// Reading a raw field stops exactly at the separator, when the field
/// holds no byte that would need quoting.
proof fn lemma_scan_raw_clean(f: Seq<u8>, rest: Seq<u8>)
    requires
        !field_needs_quoting(f),
        rest.len() > 0,
        rest[0] == 44 || rest[0] == 10,
    ensures
        scan_raw(f + rest) == (f, rest),
    decreases f.len(),
{
    let s = f + rest;
    if f.len() == 0 {
        assert(s =~= rest);
        assert(s[0] == 44 || s[0] == 10);
    } else {
        assert(s[0] == f[0]);
        assert(!(f[0] == 34 || f[0] == 44 || f[0] == 10 || f[0] == 13));
        assert(!field_needs_quoting(f.drop_first())) by {
            if field_needs_quoting(f.drop_first()) {
                let i = choose|i: int|
                    0 <= i < f.drop_first().len() && ((#[trigger] f.drop_first()[i]) == 34
                        || f.drop_first()[i] == 44 || f.drop_first()[i] == 10 || f.drop_first()[i]
                        == 13);
                assert(f[i + 1] == f.drop_first()[i]);
            }
        }
        lemma_scan_raw_clean(f.drop_first(), rest);
        assert(s.skip(1) =~= f.drop_first() + rest);
        assert(seq![f[0]] + f.drop_first() =~= f);
    }
}

/// Reading one encoded field followed by a separator gives the field
/// back, with the separator untouched.
proof fn lemma_parse_field_encode(f: Seq<u8>, rest: Seq<u8>)
    requires
        rest.len() > 0,
        rest[0] == 44 || rest[0] == 10,
    ensures
        parse_field(encode_field(f) + rest) == Some((f, rest)),
{
    let s = encode_field(f) + rest;
    if field_needs_quoting(f) {
        assert(s[0] == 34);
        assert(s.skip(1) =~= escape_quotes(f) + seq![34u8] + rest);
        lemma_parse_quoted_escape(f, rest);
    } else {
        assert(s =~= f + rest);
        if f.len() == 0 {
            assert(s[0] != 34);
        } else {
            assert(s[0] == f[0]);
            assert(!(f[0] == 34 || f[0] == 44 || f[0] == 10 || f[0] == 13));
        }
        lemma_scan_raw_clean(f, rest);
    }
}

/// Reading one encoded row gives its fields back, with what follows the
/// row untouched.
proof fn lemma_parse_row_encode(row: Seq<Seq<u8>>, rest: Seq<u8>)
    requires
        row.len() >= 1,
    ensures
        parse_row(encode_row(row) + rest) == Some((row, rest)),
    decreases row.len(),
{
    let s = encode_row(row) + rest;
    if row.len() == 1 {
        assert(encode_row(row) == encode_field(row[0]) + seq![10u8]);
        let sep = seq![10u8] + rest;
        assert(s =~= encode_field(row[0]) + sep);
        assert(sep[0] == 10);
        lemma_parse_field_encode(row[0], sep);
        assert(sep.skip(1) =~= rest);
        assert(seq![row[0]] =~= row);
    } else {
        assert(encode_row(row) == encode_field(row[0]) + seq![44u8] + encode_row(
            row.drop_first(),
        ));
        let sep = seq![44u8] + encode_row(row.drop_first()) + rest;
        assert(s =~= encode_field(row[0]) + sep);
        assert(sep[0] == 44);
        lemma_parse_field_encode(row[0], sep);
        lemma_parse_row_encode(row.drop_first(), rest);
        assert(sep.skip(1) =~= encode_row(row.drop_first()) + rest);
        assert(seq![row[0]] + row.drop_first() =~= row);
    }
}

/// Every encoded row holds at least its line break.
proof fn lemma_encode_row_len(row: Seq<Seq<u8>>)
    ensures
        encode_row(row).len() >= 1,
    decreases row.len(),
{
    if row.len() > 1 {
        lemma_encode_row_len(row.drop_first());
    }
}

/// Law: CSV round trip at the byte level. A file written by the encoder
/// reads back as exactly the rows that were written, quoting and
/// escaping undone, for any rows of at least one field each.
pub proof fn lemma_csv_round_trip(rows: Seq<Seq<Seq<u8>>>)
    requires
        forall|i: int| 0 <= i < rows.len() ==> (#[trigger] rows[i]).len() >= 1,
    ensures
        parse_rows(encode_rows(rows)) == Some(rows),
    decreases rows.len(),
{
    if rows.len() == 0 {
        assert(encode_rows(rows).len() == 0);
    } else {
        let s = encode_rows(rows);
        assert(s == encode_row(rows[0]) + encode_rows(rows.drop_first()));
        lemma_encode_row_len(rows[0]);
        assert(s.len() >= 1);
        lemma_parse_row_encode(rows[0], encode_rows(rows.drop_first()));
        assert forall|i: int| 0 <= i < rows.drop_first().len() implies (
        #[trigger] rows.drop_first()[i]).len() >= 1 by {
            assert(rows.drop_first()[i] == rows[i + 1]);
        }
        lemma_csv_round_trip(rows.drop_first());
        assert(seq![rows[0]] + rows.drop_first() =~= rows);
    }
}

/// Law: the CSV dump reads back as its records. The file parses into the
/// header row and one row per record; with the coordinate and record
/// round trips, every surviving address is reconstructed field for
/// field.
pub proof fn lemma_dump_round_trip(records: Seq<OpenAddressV>)
    ensures
        parse_rows(dump_bytes_spec(records)) == Some(
            seq![header_row()] + records.map_values(|r: OpenAddressV| row_of_record(r)),
        ),
{
    let rows = seq![header_row()] + records.map_values(|r: OpenAddressV| row_of_record(r));
    assert forall|i: int| 0 <= i < rows.len() implies (#[trigger] rows[i]).len() >= 1 by {
        if i == 0 {
            assert(rows[0] == header_row());
        } else {
            assert(rows[i] == row_of_record(records[i - 1]));
        }
    }
    lemma_csv_round_trip(rows);
}

} // verus!
