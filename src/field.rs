//! Prime-field coefficients, kept as little-endian byte strings.
use num_bigint::BigUint;
use num_traits::Num;
use vstd::prelude::*;
use vstd::string::StrSliceExecFns;

verus! {

/// The natural number that a little-endian byte string encodes.
pub open spec fn le_nat(b: Seq<u8>) -> nat
    decreases b.len(),
{
    if b.len() == 0 {
        0
    } else {
        b[0] as nat + 256 * le_nat(b.drop_first())
    }
}

pub open spec fn is_digit(c: char) -> bool {
    '0' <= c && c <= '9'
}

/// The value of a string of decimal digits.
pub open spec fn digits_value(s: Seq<char>) -> nat
    decreases s.len(),
{
    if s.len() == 0 {
        0
    } else {
        10 * digits_value(s.drop_last()) + (s.last() as nat - '0' as nat) as nat
    }
}

/// The value of a decimal numeral: one or more ASCII digits.
pub open spec fn numeral_value(s: Seq<char>) -> Option<nat> {
    if s.len() > 0 && forall|k: int| 0 <= k < s.len() ==> is_digit(#[trigger] s[k]) {
        Some(digits_value(s))
    } else {
        None
    }
}

/// Whether `s` is a decimal numeral.
pub fn is_numeral(s: &str) -> (r: bool)
    ensures
        r == numeral_value(s@) is Some,
{
    let len = s.unicode_len();
    if len == 0 {
        return false;
    }
    let mut k: usize = 0;
    while k < len
        invariant
            k <= len,
            len == s@.len(),
            forall|j: int| 0 <= j < k ==> is_digit(#[trigger] s@[j]),
        decreases len - k,
    {
        let c = s.get_char(k);
        if !('0' <= c && c <= '9') {
            return false;
        }
        k = k + 1;
    }
    true
}

/// A coefficient: the little-endian bytes of a field element.
#[derive(Clone, Debug)]
pub struct FieldElem {
    pub repr: Vec<u8>,
}

impl FieldElem {
    /// The value of the coefficient.
    pub open spec fn value(&self) -> nat {
        le_nat(self.repr@)
    }

    /// A copy with the same bytes.
    pub fn copy(&self) -> (r: FieldElem)
        ensures
            r.repr@ == self.repr@,
    {
        let mut repr: Vec<u8> = Vec::new();
        let mut i: usize = 0;
        while i < self.repr.len()
            invariant
                i <= self.repr.len(),
                repr@ == self.repr@.subrange(0, i as int),
            decreases self.repr.len() - i,
        {
            repr.push(self.repr[i]);
            i = i + 1;
        }
        assert(repr@ == self.repr@.subrange(0, self.repr@.len() as int));
        FieldElem { repr }
    }
}

/// The field a relation is stated over: the byte width of an element and the
/// prime modulus, little-endian.
#[derive(Clone, Debug)]
pub struct Field {
    pub n8: u32,
    pub prime: Vec<u8>,
}

impl Field {
    pub open spec fn modulus(&self) -> nat {
        le_nat(self.prime@)
    }

    /// Whether `e` is the representation of an element of this field.
    pub open spec fn holds(&self, e: FieldElem) -> bool {
        e.value() < self.modulus()
    }
}

/// Relies on `BigUint::from_bytes_le` and the numeric order of `BigUint`:
/// compares two little-endian numbers.
#[verifier::external_body]
pub(crate) fn le_less(a: &[u8], b: &[u8]) -> (r: bool)
    ensures
        r == (le_nat(a@) < le_nat(b@)),
{
    BigUint::from_bytes_le(a) < BigUint::from_bytes_le(b)
}

/// Relies on `BigUint::from_str_radix` (radix 10), which reads a string of
/// ASCII digits as its decimal value, and `BigUint::to_bytes_le`, which
/// hands back that value's little-endian bytes.
#[verifier::external_body]
fn decimal_le_bytes(s: &str) -> (r: Option<Vec<u8>>)
    requires
        numeral_value(s@) is Some,
    ensures
        r is Some,
        le_nat(r.unwrap()@) == digits_value(s@),
{
    BigUint::from_str_radix(s, 10).ok().map(|v| v.to_bytes_le())
}

/// Whether `bytes` is an element of `field`.
pub fn field_contains(field: &Field, bytes: &[u8]) -> (r: bool)
    ensures
        r == (le_nat(bytes@) < field.modulus()),
{
    le_less(bytes, field.prime.as_slice())
}

proof fn lemma_le_nat_push_zero(s: Seq<u8>)
    ensures
        le_nat(s.push(0)) == le_nat(s),
    decreases s.len(),
{
    if s.len() > 0 {
        assert(s.push(0).drop_first() =~= s.drop_first().push(0));
        lemma_le_nat_push_zero(s.drop_first());
    } else {
        assert(s.push(0).drop_first() =~= s);
    }
}

/// `bytes` widened with zero bytes to at least `width` bytes.
fn pad_to(bytes: Vec<u8>, width: u32) -> (r: Vec<u8>)
    ensures
        le_nat(r@) == le_nat(bytes@),
        r@.len() == if bytes@.len() >= width { bytes@.len() } else { width as nat },
        r@.subrange(0, bytes@.len() as int) == bytes@,
{
    let mut r = bytes;
    let ghost orig = r@;
    while r.len() < width as usize
        invariant
            le_nat(r@) == le_nat(orig),
            r@.len() >= orig.len(),
            r@.len() <= if orig.len() >= width { orig.len() } else { width as nat },
            r@.subrange(0, orig.len() as int) == orig,
        decreases width - r.len(),
    {
        proof {
            lemma_le_nat_push_zero(r@);
        }
        let ghost before = r@;
        r.push(0);
        assert(r@.subrange(0, orig.len() as int) =~= before.subrange(0, orig.len() as int));
    }
    r
}

/// The element of `field` with little-endian bytes `bytes`: `None` when their
/// value is not below the modulus.
pub fn coefficient_from_le(field: &Field, bytes: Vec<u8>) -> (r: Option<FieldElem>)
    ensures
        r.is_some() == (le_nat(bytes@) < field.modulus()),
        r matches Some(e) ==> e.repr@ == bytes@,
{
    if field_contains(field, bytes.as_slice()) {
        Some(FieldElem { repr: bytes })
    } else {
        None
    }
}

/// Reads a decimal coefficient as an element of `field`, at least as wide as
/// the field's byte width: `None` when `s` is no
/// decimal numeral (one or more ASCII digits) or its value is not below the
/// modulus.
pub fn parse_coefficient(field: &Field, s: &str) -> (r: Option<FieldElem>)
    ensures
        r.is_some() == (numeral_value(s@) matches Some(v) && v < field.modulus()),
        r matches Some(e) ==> e.value() == digits_value(s@) && e.repr@.len() >= field.n8,
{
    if !is_numeral(s) {
        return None;
    }
    match decimal_le_bytes(s) {
        None => None,
        Some(v) => coefficient_from_le(field, pad_to(v, field.n8)),
    }
}

} // verus!
