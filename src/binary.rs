//! The binary `.r1cs` encoding: the magic `r1cs`, a version, and a table of
//! sections, each a type, a 64-bit size and a body. Section 1 is the header,
//! section 2 the constraints; others are skipped.
use crate::field::{le_less, le_nat, Field, FieldElem};
use crate::relation::{normalize, Constraint, R1csError, RawR1cs, R1CS};
use vstd::prelude::*;

verus! {

/// A term as read: the variable index and the coefficient's bytes.
pub type TermModel = (nat, Seq<u8>);

/// A constraint as read: its three linear combinations.
pub type ConstraintModel = (Seq<TermModel>, Seq<TermModel>, Seq<TermModel>);

/// The little-endian `u32` at `p`.
pub open spec fn u32_at(b: Seq<u8>, p: int) -> nat {
    (b[p] + 256 * b[p + 1] + 65536 * b[p + 2] + 16777216 * b[p + 3]) as nat
}

/// The little-endian `u64` at `p`.
pub open spec fn u64_at(b: Seq<u8>, p: int) -> nat {
    u32_at(b, p) + 4294967296 * u32_at(b, p + 4)
}

/// `n` terms from `pos`, none past `lim`: the terms and the position after.
pub open spec fn terms_at(b: Seq<u8>, lim: int, pos: int, n: nat, n8: nat) -> Option<
    (Seq<TermModel>, int),
>
    decreases n,
{
    if n == 0 {
        Some((Seq::empty(), pos))
    } else {
        match terms_at(b, lim, pos, (n - 1) as nat, n8) {
            Some((t, p)) => if p + 4 + n8 <= lim {
                Some((t.push((u32_at(b, p), b.subrange(p + 4, p + 4 + n8))), p + 4 + n8))
            } else {
                None
            },
            None => None,
        }
    }
}

/// A linear combination at `pos`: its entry count, then its terms.
pub open spec fn lc_at(b: Seq<u8>, lim: int, pos: int, n8: nat) -> Option<(Seq<TermModel>, int)> {
    if pos + 4 <= lim {
        terms_at(b, lim, pos + 4, u32_at(b, pos), n8)
    } else {
        None
    }
}

/// A constraint at `pos`: three linear combinations in turn.
pub open spec fn constraint_at(b: Seq<u8>, lim: int, pos: int, n8: nat) -> Option<
    (ConstraintModel, int),
> {
    match lc_at(b, lim, pos, n8) {
        Some((x, after_a)) => match lc_at(b, lim, after_a, n8) {
            Some((y, after_b)) => match lc_at(b, lim, after_b, n8) {
                Some((z, after_c)) => Some(((x, y, z), after_c)),
                None => None,
            },
            None => None,
        },
        None => None,
    }
}

/// `m` constraints from `pos`.
pub open spec fn constraints_at(b: Seq<u8>, lim: int, pos: int, m: nat, n8: nat) -> Option<
    (Seq<ConstraintModel>, int),
>
    decreases m,
{
    if m == 0 {
        Some((Seq::empty(), pos))
    } else {
        match constraints_at(b, lim, pos, (m - 1) as nat, n8) {
            Some((cs, p)) => match constraint_at(b, lim, p, n8) {
                Some((c, q)) => Some((cs.push(c), q)),
                None => None,
            },
            None => None,
        }
    }
}

/// Walks `k` section entries from `pos`: `None` when an entry runs past the
/// end; else the body offset and size of the last section of type `ty`, if
/// any.
pub open spec fn section_of(b: Seq<u8>, pos: int, k: nat, ty: nat) -> Option<Option<(int, int)>>
    decreases k,
{
    if k == 0 {
        Some(None)
    } else if pos + 12 > b.len() || pos + 12 + u64_at(b, pos + 4) > b.len() {
        None
    } else {
        let body = pos + 12;
        let size = u64_at(b, pos + 4) as int;
        match section_of(b, body + size, (k - 1) as nat, ty) {
            Some(Some(later)) => Some(Some(later)),
            Some(None) => if u32_at(b, pos) == ty {
                Some(Some((body, size)))
            } else {
                Some(None)
            },
            None => None,
        }
    }
}

/// What a binary source holds.
pub struct BinModel {
    pub n8: nat,
    pub prime: Seq<u8>,
    pub n_wires: nat,
    pub n_pub_out: nat,
    pub n_pub_in: nat,
    pub n_prv_in: nat,
    pub constraints: Seq<ConstraintModel>,
}

pub open spec fn lc_indices_below(lc: Seq<TermModel>, n: nat) -> bool {
    forall|k: int| 0 <= k < lc.len() ==> (#[trigger] lc[k]).0 < n
}

pub open spec fn lc_coeffs_below(lc: Seq<TermModel>, p: nat) -> bool {
    forall|k: int| 0 <= k < lc.len() ==> le_nat((#[trigger] lc[k]).1) < p
}

/// Every variable index is below the wire count.
pub open spec fn indices_below(cs: Seq<ConstraintModel>, n: nat) -> bool {
    forall|i: int|
        0 <= i < cs.len() ==> lc_indices_below((#[trigger] cs[i]).0, n) && lc_indices_below(
            cs[i].1,
            n,
        ) && lc_indices_below(cs[i].2, n)
}

/// Every coefficient is below the modulus.
pub open spec fn coeffs_below(cs: Seq<ConstraintModel>, p: nat) -> bool {
    forall|i: int|
        0 <= i < cs.len() ==> lc_coeffs_below((#[trigger] cs[i]).0, p) && lc_coeffs_below(
            cs[i].1,
            p,
        ) && lc_coeffs_below(cs[i].2, p)
}

/// The header at `ho` (of size `hs`) and the constraints section at `co`
/// (of size `cs`).
pub open spec fn parse_sections(
    b: Seq<u8>,
    ho: int,
    hs: int,
    co: int,
    cs: int,
    field: Field,
) -> Result<
    BinModel,
    R1csError,
> {
    if hs < 4 || hs != 32 + u32_at(b, ho) {
        Err(R1csError::BadHeader)
    } else {
        let n8 = u32_at(b, ho);
        let f = ho + 4 + n8;
        if n8 != field.n8 || b.subrange(ho + 4, f) != field.prime@ {
            Err(R1csError::FieldMismatch)
        } else {
        match constraints_at(b, co + cs, co, u32_at(b, f + 24), n8) {
            None => Err(R1csError::Truncated),
            Some((constraints, _)) => {
                let m = BinModel {
                    n8,
                    prime: b.subrange(ho + 4, f),
                    n_wires: u32_at(b, f),
                    n_pub_out: u32_at(b, f + 4),
                    n_pub_in: u32_at(b, f + 8),
                    n_prv_in: u32_at(b, f + 12),
                    constraints,
                };
                if !indices_below(constraints, m.n_wires) {
                    Err(R1csError::IndexOutOfRange)
                } else if !coeffs_below(constraints, le_nat(m.prime)) {
                    Err(R1csError::InvalidCoefficient)
                } else {
                    Ok(m)
                }
            },
        }
        }
    }
}

/// The meaning of a binary source, read over `field`.
pub open spec fn parse_bin(b: Seq<u8>, field: Field) -> Result<BinModel, R1csError> {
    if b.len() < 4 {
        Err(R1csError::Truncated)
    } else if b.subrange(0, 4) != seq![0x72u8, 0x31u8, 0x63u8, 0x73u8] {
        Err(R1csError::BadMagic)
    } else if b.len() < 12 {
        Err(R1csError::Truncated)
    } else if u32_at(b, 4) != 1 {
        Err(R1csError::BadVersion)
    } else {
        let k = u32_at(b, 8);
        match (section_of(b, 12, k, 1), section_of(b, 12, k, 2)) {
            (Some(Some((ho, hs))), Some(Some((co, cs)))) => parse_sections(b, ho, hs, co, cs, field),
            (Some(_), Some(_)) => Err(R1csError::MissingSection),
            _ => Err(R1csError::Truncated),
        }
    }
}

/// A linear combination as read.
pub open spec fn lc_model(lc: Seq<(usize, FieldElem)>) -> Seq<TermModel> {
    lc.map_values(|t: (usize, FieldElem)| (t.0 as nat, t.1.repr@))
}

pub open spec fn constraint_model(c: Constraint) -> ConstraintModel {
    (lc_model(c.a@), lc_model(c.b@), lc_model(c.c@))
}

/// `raw` holds what `m` says.
pub open spec fn holds_model(raw: RawR1cs, m: BinModel) -> bool {
    &&& raw.n_wires == m.n_wires
    &&& raw.n_pub_out == m.n_pub_out
    &&& raw.n_pub_in == m.n_pub_in
    &&& raw.n_prv_in == Some(m.n_prv_in as u32)
    &&& raw.constraints@.map_values(|c: Constraint| constraint_model(c)) == m.constraints
}

} // verus!
verus! {

fn read_u32(b: &[u8], p: usize) -> (r: u32)
    requires
        p + 4 <= b.len(),
    ensures
        r == u32_at(b@, p as int),
{
    b[p] as u32 + (b[p + 1] as u32) * 256 + (b[p + 2] as u32) * 65536 + (b[p + 3] as u32)
        * 16777216
}

fn read_u64(b: &[u8], p: usize) -> (r: u64)
    requires
        p + 8 <= b.len(),
    ensures
        r == u64_at(b@, p as int),
{
    read_u32(b, p) as u64 + (read_u32(b, p + 4) as u64) * 4294967296
}

/// The `n` bytes from `p`.
fn read_bytes(b: &[u8], p: usize, n: usize) -> (r: Vec<u8>)
    requires
        p + n <= b.len(),
    ensures
        r@ == b@.subrange(p as int, p + n),
{
    let mut v: Vec<u8> = Vec::new();
    let mut i: usize = 0;
    while i < n
        invariant
            i <= n,
            p + n <= b.len(),
            v@ == b@.subrange(p as int, p + i),
        decreases n - i,
    {
        v.push(b[p + i]);
        i = i + 1;
        assert(v@ =~= b@.subrange(p as int, p + i));
    }
    v
}

proof fn lemma_terms_fail(b: Seq<u8>, lim: int, pos: int, i: nat, n: nat, n8: nat)
    requires
        i <= n,
        terms_at(b, lim, pos, i, n8) is None,
    ensures
        terms_at(b, lim, pos, n, n8) is None,
    decreases n - i,
{
    if i < n {
        assert(terms_at(b, lim, pos, (i + 1) as nat, n8) is None);
        lemma_terms_fail(b, lim, pos, (i + 1) as nat, n, n8);
    }
}

proof fn lemma_constraints_fail(b: Seq<u8>, lim: int, pos: int, i: nat, m: nat, n8: nat)
    requires
        i <= m,
        constraints_at(b, lim, pos, i, n8) is None,
    ensures
        constraints_at(b, lim, pos, m, n8) is None,
    decreases m - i,
{
    if i < m {
        assert(constraints_at(b, lim, pos, (i + 1) as nat, n8) is None);
        lemma_constraints_fail(b, lim, pos, (i + 1) as nat, m, n8);
    }
}

/// Reads the linear combination at `pos`, none of it past `lim`.
fn read_lc(b: &[u8], lim: usize, pos: usize, n8: usize) -> (r: Option<
    (Vec<(usize, FieldElem)>, usize),
>)
    requires
        lim <= b.len(),
        pos <= lim,
    ensures
        match r {
            None => lc_at(b@, lim as int, pos as int, n8 as nat) is None,
            Some((v, e)) => lc_at(b@, lim as int, pos as int, n8 as nat) == Some(
                (lc_model(v@), e as int),
            ) && e <= lim,
        },
{
    if lim - pos < 4 {
        return None;
    }
    let n = read_u32(b, pos);
    let mut v: Vec<(usize, FieldElem)> = Vec::new();
    let mut p: usize = pos + 4;
    let mut i: u32 = 0;
    while i < n
        invariant
            lim <= b.len(),
            pos + 4 <= p <= lim,
            i <= n,
            n == u32_at(b@, pos as int),
            terms_at(b@, lim as int, pos + 4, i as nat, n8 as nat) == Some(
                (lc_model(v@), p as int),
            ),
        decreases n - i,
    {
        if lim - p < 4 || lim - p - 4 < n8 {
            proof {
                assert(terms_at(b@, lim as int, pos + 4, (i + 1) as nat, n8 as nat) is None);
                lemma_terms_fail(b@, lim as int, pos + 4, (i + 1) as nat, n as nat, n8 as nat);
                assert(lc_at(b@, lim as int, pos as int, n8 as nat) == terms_at(
                    b@,
                    lim as int,
                    pos + 4,
                    n as nat,
                    n8 as nat,
                ));
            }
            return None;
        }
        let index = read_u32(b, p);
        let repr = read_bytes(b, p + 4, n8);
        let ghost old_v = v@;
        v.push((index as usize, FieldElem { repr }));
        assert(lc_model(v@) =~= lc_model(old_v).push((index as nat, repr@)));
        p = p + 4 + n8;
        i = i + 1;
    }
    Some((v, p))
}

/// Reads the constraint at `pos`.
fn read_constraint(b: &[u8], lim: usize, pos: usize, n8: usize) -> (r: Option<(Constraint, usize)>)
    requires
        lim <= b.len(),
        pos <= lim,
    ensures
        match r {
            None => constraint_at(b@, lim as int, pos as int, n8 as nat) is None,
            Some((c, e)) => constraint_at(b@, lim as int, pos as int, n8 as nat) == Some(
                (constraint_model(c), e as int),
            ) && e <= lim,
        },
{
    let (a, after_a) = match read_lc(b, lim, pos, n8) {
        Some(x) => x,
        None => return None,
    };
    let (bb, after_b) = match read_lc(b, lim, after_a, n8) {
        Some(x) => x,
        None => return None,
    };
    let (c, after_c) = match read_lc(b, lim, after_b, n8) {
        Some(x) => x,
        None => return None,
    };
    Some((Constraint { a, b: bb, c }, after_c))
}

/// Reads `m` constraints from `pos`.
fn read_constraints(b: &[u8], lim: usize, pos: usize, m: u32, n8: usize) -> (r: Option<
    Vec<Constraint>,
>)
    requires
        lim <= b.len(),
        pos <= lim,
    ensures
        match r {
            None => constraints_at(b@, lim as int, pos as int, m as nat, n8 as nat) is None,
            Some(v) => constraints_at(b@, lim as int, pos as int, m as nat, n8 as nat) matches Some(
                (cs, _),
            ) && v@.map_values(|c: Constraint| constraint_model(c)) == cs,
        },
{
    let mut v: Vec<Constraint> = Vec::new();
    let mut p: usize = pos;
    let mut i: u32 = 0;
    while i < m
        invariant
            lim <= b.len(),
            p <= lim,
            i <= m,
            constraints_at(b@, lim as int, pos as int, i as nat, n8 as nat) == Some(
                (v@.map_values(|c: Constraint| constraint_model(c)), p as int),
            ),
        decreases m - i,
    {
        match read_constraint(b, lim, p, n8) {
            None => {
                proof {
                    lemma_constraints_fail(
                        b@,
                        lim as int,
                        pos as int,
                        (i + 1) as nat,
                        m as nat,
                        n8 as nat,
                    );
                }
                return None;
            },
            Some((c, q)) => {
                let ghost old_v = v@;
                v.push(c);
                assert(v@.map_values(|c: Constraint| constraint_model(c)) =~= old_v.map_values(
                    |c: Constraint| constraint_model(c),
                ).push(constraint_model(c)));
                p = q;
                i = i + 1;
            },
        }
    }
    Some(v)
}

} // verus!
verus! {

fn bytes_equal(x: &[u8], y: &[u8]) -> (r: bool)
    ensures
        r == (x@ == y@),
{
    if x.len() != y.len() {
        return false;
    }
    let mut i: usize = 0;
    while i < x.len()
        invariant
            i <= x.len(),
            x.len() == y.len(),
            forall|j: int| 0 <= j < i ==> x@[j] == y@[j],
        decreases x.len() - i,
    {
        if x[i] != y[i] {
            return false;
        }
        i = i + 1;
    }
    assert(x@ =~= y@);
    true
}

/// Finds the last section of type `ty` among the `k` entries from `pos`.
fn find_section(b: &[u8], pos: usize, k: u32, ty: u32) -> (r: Option<Option<(usize, usize)>>)
    requires
        pos <= b.len(),
    ensures
        match r {
            None => section_of(b@, pos as int, k as nat, ty as nat) is None,
            Some(None) => section_of(b@, pos as int, k as nat, ty as nat) == Some(
                None::<(int, int)>,
            ),
            Some(Some((o, s))) => section_of(b@, pos as int, k as nat, ty as nat) == Some(
                Some((o as int, s as int)),
            ) && o + s <= b.len(),
        },
    decreases k,
{
    if k == 0 {
        return Some(None);
    }
    if b.len() - pos < 12 {
        return None;
    }
    let size = read_u64(b, pos + 4);
    if size > (b.len() - pos - 12) as u64 {
        return None;
    }
    let body = pos + 12;
    let next = body + size as usize;
    let here = read_u32(b, pos);
    match find_section(b, next, k - 1, ty) {
        None => None,
        Some(Some(later)) => Some(Some(later)),
        Some(None) => if here == ty {
            Some(Some((body, size as usize)))
        } else {
            Some(None)
        },
    }
}

fn lc_indices_ok(lc: &Vec<(usize, FieldElem)>, n: u32) -> (r: bool)
    ensures
        r == lc_indices_below(lc_model(lc@), n as nat),
{
    let mut k: usize = 0;
    while k < lc.len()
        invariant
            k <= lc.len(),
            forall|j: int| 0 <= j < k ==> (#[trigger] lc@[j]).0 < n,
        decreases lc.len() - k,
    {
        if lc[k].0 >= n as usize {
            assert(lc_model(lc@)[k as int].0 >= n);
            return false;
        }
        k = k + 1;
    }
    assert forall|j: int| 0 <= j < lc_model(lc@).len() implies (#[trigger] lc_model(
        lc@,
    )[j]).0 < n by {
        assert(lc@[j].0 < n);
    }
    true
}

fn lc_coeffs_ok(lc: &Vec<(usize, FieldElem)>, prime: &[u8]) -> (r: bool)
    ensures
        r == lc_coeffs_below(lc_model(lc@), le_nat(prime@)),
{
    let mut k: usize = 0;
    while k < lc.len()
        invariant
            k <= lc.len(),
            forall|j: int| 0 <= j < k ==> (#[trigger] lc@[j]).1.value() < le_nat(prime@),
        decreases lc.len() - k,
    {
        if !le_less(lc[k].1.repr.as_slice(), prime) {
            assert(!(le_nat(lc_model(lc@)[k as int].1) < le_nat(prime@)));
            return false;
        }
        k = k + 1;
    }
    assert forall|j: int| 0 <= j < lc_model(lc@).len() implies le_nat(
        (#[trigger] lc_model(lc@)[j]).1,
    ) < le_nat(prime@) by {
        assert(lc@[j].1.value() < le_nat(prime@));
    }
    true
}

fn indices_ok(cs: &Vec<Constraint>, n: u32) -> (r: bool)
    ensures
        r == indices_below(cs@.map_values(|c: Constraint| constraint_model(c)), n as nat),
{
    let ghost ms = cs@.map_values(|c: Constraint| constraint_model(c));
    let mut i: usize = 0;
    while i < cs.len()
        invariant
            i <= cs.len(),
            ms == cs@.map_values(|c: Constraint| constraint_model(c)),
            forall|j: int|
                0 <= j < i ==> lc_indices_below((#[trigger] ms[j]).0, n as nat)
                    && lc_indices_below(ms[j].1, n as nat) && lc_indices_below(ms[j].2, n as nat),
        decreases cs.len() - i,
    {
        if !(lc_indices_ok(&cs[i].a, n) && lc_indices_ok(&cs[i].b, n) && lc_indices_ok(
            &cs[i].c,
            n,
        )) {
            assert(!(lc_indices_below(ms[i as int].0, n as nat) && lc_indices_below(
                ms[i as int].1,
                n as nat,
            ) && lc_indices_below(ms[i as int].2, n as nat)));
            return false;
        }
        i = i + 1;
    }
    true
}

fn coeffs_ok(cs: &Vec<Constraint>, prime: &[u8]) -> (r: bool)
    ensures
        r == coeffs_below(cs@.map_values(|c: Constraint| constraint_model(c)), le_nat(prime@)),
{
    let ghost ms = cs@.map_values(|c: Constraint| constraint_model(c));
    let ghost p = le_nat(prime@);
    let mut i: usize = 0;
    while i < cs.len()
        invariant
            i <= cs.len(),
            ms == cs@.map_values(|c: Constraint| constraint_model(c)),
            p == le_nat(prime@),
            forall|j: int|
                0 <= j < i ==> lc_coeffs_below((#[trigger] ms[j]).0, p) && lc_coeffs_below(
                    ms[j].1,
                    p,
                ) && lc_coeffs_below(ms[j].2, p),
        decreases cs.len() - i,
    {
        if !(lc_coeffs_ok(&cs[i].a, prime) && lc_coeffs_ok(&cs[i].b, prime) && lc_coeffs_ok(
            &cs[i].c,
            prime,
        )) {
            assert(!(lc_coeffs_below(ms[i as int].0, p) && lc_coeffs_below(ms[i as int].1, p)
                && lc_coeffs_below(ms[i as int].2, p)));
            return false;
        }
        i = i + 1;
    }
    true
}

} // verus!
verus! {

proof fn lemma_indices_below(cs: Seq<Constraint>, n: nat)
    requires
        indices_below(cs.map_values(|c: Constraint| constraint_model(c)), n),
    ensures
        forall|i: int| 0 <= i < cs.len() ==> (#[trigger] cs[i]).below(n),
{
    let ms = cs.map_values(|c: Constraint| constraint_model(c));
    assert forall|i: int| 0 <= i < cs.len() implies (#[trigger] cs[i]).below(n) by {
        assert(ms[i] == constraint_model(cs[i]));
        assert forall|k: int| 0 <= k < cs[i].a@.len() implies (#[trigger] cs[i].a@[k]).0 < n by {
            assert(ms[i].0[k].0 < n);
        }
        assert forall|k: int| 0 <= k < cs[i].b@.len() implies (#[trigger] cs[i].b@[k]).0 < n by {
            assert(ms[i].1[k].0 < n);
        }
        assert forall|k: int| 0 <= k < cs[i].c@.len() implies (#[trigger] cs[i].c@[k]).0 < n by {
            assert(ms[i].2[k].0 < n);
        }
    }
}

/// Decodes a binary source into its raw record. Fails on a bad magic or
/// version, a missing header or constraints section, a header whose size
/// does not match its field width, a field other than `field`, a declared count that runs past the end
/// of its section, an index that is not below the wire count, and a
/// coefficient that is not below the header's modulus.
pub fn decode_r1cs_bin(b: &[u8], field: &Field) -> (r: Result<RawR1cs, R1csError>)
    ensures
        match r {
            Ok(raw) => parse_bin(b@, *field) matches Ok(m) && holds_model(raw, m) && raw.wf(),
            Err(e) => parse_bin(b@, *field) == Err::<BinModel, R1csError>(e),
        },
{
    if b.len() < 4 {
        return Err(R1csError::Truncated);
    }
    if !(b[0] == 0x72u8 && b[1] == 0x31u8 && b[2] == 0x63u8 && b[3] == 0x73u8) {
        assert(b@.subrange(0, 4) != seq![0x72u8, 0x31u8, 0x63u8, 0x73u8]) by {
            assert(b@.subrange(0, 4)[0] == b[0] && b@.subrange(0, 4)[1] == b[1]
                && b@.subrange(0, 4)[2] == b[2] && b@.subrange(0, 4)[3] == b[3]);
        }
        return Err(R1csError::BadMagic);
    }
    assert(b@.subrange(0, 4) =~= seq![0x72u8, 0x31u8, 0x63u8, 0x73u8]);
    if b.len() < 12 {
        return Err(R1csError::Truncated);
    }
    if read_u32(b, 4) != 1 {
        return Err(R1csError::BadVersion);
    }
    let k = read_u32(b, 8);
    let header = find_section(b, 12, k, 1);
    let body = find_section(b, 12, k, 2);
    let (ho, hs, co, cs) = match (header, body) {
        (Some(Some((ho, hs))), Some(Some((co, cs)))) => (ho, hs, co, cs),
        (Some(_), Some(_)) => return Err(R1csError::MissingSection),
        _ => return Err(R1csError::Truncated),
    };
    if hs < 4 {
        return Err(R1csError::BadHeader);
    }
    let n8 = read_u32(b, ho);
    if hs as u64 != 32 + n8 as u64 {
        return Err(R1csError::BadHeader);
    }
    if n8 != field.n8 {
        return Err(R1csError::FieldMismatch);
    }
    let n8 = n8 as usize;
    let f = ho + 4 + n8;
    let prime = read_bytes(b, ho + 4, n8);
    if !bytes_equal(prime.as_slice(), field.prime.as_slice()) {
        return Err(R1csError::FieldMismatch);
    }
    let n_wires = read_u32(b, f);
    let n_pub_out = read_u32(b, f + 4);
    let n_pub_in = read_u32(b, f + 8);
    let n_prv_in = read_u32(b, f + 12);
    let m = read_u32(b, f + 24);
    let constraints = match read_constraints(b, co + cs, co, m, n8) {
        Some(v) => v,
        None => return Err(R1csError::Truncated),
    };
    if !indices_ok(&constraints, n_wires) {
        return Err(R1csError::IndexOutOfRange);
    }
    if !coeffs_ok(&constraints, prime.as_slice()) {
        return Err(R1csError::InvalidCoefficient);
    }
    proof {
        lemma_indices_below(constraints@, n_wires as nat);
    }
    Ok(RawR1cs { n_pub_out, n_pub_in, n_prv_in: Some(n_prv_in), n_wires, constraints })
}

/// Decodes a binary source and normalizes it.
pub fn load_r1cs_from_bin(b: &[u8], field: &Field) -> (r: Result<R1CS, R1csError>)
    ensures
        match parse_bin(b@, *field) {
            Err(e) => r == Err::<R1CS, R1csError>(e),
            Ok(m) => if m.n_pub_out + m.n_pub_in + 1 > m.n_wires {
                r == Err::<R1CS, R1csError>(R1csError::TooFewWires)
            } else {
                r matches Ok(n) && n.wf() && n.num_inputs == m.n_pub_out + m.n_pub_in + 1
                    && n.num_aux == m.n_wires - n.num_inputs && n.num_variables == m.n_wires
                    && n.constraints@.map_values(|c: Constraint| constraint_model(c))
                    == m.constraints
            },
        },
{
    match decode_r1cs_bin(b, field) {
        Err(e) => Err(e),
        Ok(raw) => normalize(raw),
    }
}

} // verus!
verus! {

/// `n` terms read from the stream are exactly `n`, and take exactly their
/// declared width: a stream that ends early is never read short.
pub proof fn lemma_terms_count(b: Seq<u8>, lim: int, pos: int, n: nat, n8: nat)
    ensures
        terms_at(b, lim, pos, n, n8) matches Some((t, e)) ==> t.len() == n && e == pos + n * (4
            + n8) && e <= lim || n == 0 && e == pos,
    decreases n,
{
    if n > 0 {
        lemma_terms_count(b, lim, pos, (n - 1) as nat, n8);
        if let Some((t, e)) = terms_at(b, lim, pos, (n - 1) as nat, n8) {
            assert(e + 4 + n8 == pos + n * (4 + n8)) by (nonlinear_arith)
                requires
                    e == pos + (n - 1) * (4 + n8),
            ;
        }
    }
}

/// A linear combination read from the stream holds exactly as many terms as
/// its entry count declares.
pub proof fn lemma_lc_count(b: Seq<u8>, lim: int, pos: int, n8: nat)
    ensures
        lc_at(b, lim, pos, n8) matches Some((t, _)) ==> t.len() == u32_at(b, pos),
{
    lemma_terms_count(b, lim, pos + 4, u32_at(b, pos), n8);
}

/// The constraints read from the stream are exactly as many as declared.
pub proof fn lemma_constraints_count(b: Seq<u8>, lim: int, pos: int, m: nat, n8: nat)
    ensures
        constraints_at(b, lim, pos, m, n8) matches Some((cs, _)) ==> cs.len() == m,
    decreases m,
{
    if m > 0 {
        lemma_constraints_count(b, lim, pos, (m - 1) as nat, n8);
    }
}

/// Two decodes of one byte stream agree.
pub proof fn lemma_bin_deterministic(b: Seq<u8>, field: Field, x: RawR1cs, y: RawR1cs)
    requires
        parse_bin(b, field) matches Ok(m) && holds_model(x, m),
        parse_bin(b, field) matches Ok(m) && holds_model(y, m),
    ensures
        x.n_wires == y.n_wires && x.n_pub_in == y.n_pub_in && x.n_pub_out == y.n_pub_out
            && x.n_prv_in == y.n_prv_in,
        x.constraints.len() == y.constraints.len(),
        forall|i: int|
            0 <= i < x.constraints.len() ==> constraint_model(#[trigger] x.constraints@[i])
                == constraint_model(y.constraints@[i]),
{
    let vx = x.constraints@.map_values(|c: Constraint| constraint_model(c));
    let vy = y.constraints@.map_values(|c: Constraint| constraint_model(c));
    assert(vx == vy);
    assert(vx.len() == x.constraints@.len() && vy.len() == y.constraints@.len());
    assert forall|i: int| 0 <= i < x.constraints.len() implies constraint_model(
        #[trigger] x.constraints@[i],
    ) == constraint_model(y.constraints@[i]) by {
        assert(vx[i] == vy[i]);
    }
}

} // verus!
verus! {

/// Cutting the stream at `j`, before the end of a section that the walk from
/// `pos` reaches, makes the walk fail.
proof fn lemma_prefix_walk(b: Seq<u8>, j: int, pos: int, k: nat, ty: nat, ty2: nat, o: int, s: int)
    requires
        0 <= pos,
        0 <= j <= b.len(),
        section_of(b, pos, k, ty) == Some(Some((o, s))),
        j < o + s,
    ensures
        section_of(b.subrange(0, j), pos, k, ty2) is None,
    decreases k,
{
    let bp = b.subrange(0, j);
    if pos + 12 <= j {
        assert(u64_at(bp, pos + 4) == u64_at(b, pos + 4));
        let next = pos + 12 + u64_at(b, pos + 4);
        if next <= j {
            match section_of(b, next, (k - 1) as nat, ty) {
                Some(Some(_)) => {
                    lemma_prefix_walk(b, j, next, (k - 1) as nat, ty, ty2, o, s);
                },
                _ => {},
            }
        }
    }
}

/// A stream cut anywhere before the end of its constraints section is
/// rejected as truncated: it never yields a shorter relation.
pub proof fn lemma_truncated_prefix(b: Seq<u8>, field: Field, j: int, co: int, cs: int)
    requires
        parse_bin(b, field) is Ok,
        section_of(b, 12, u32_at(b, 8), 2) == Some(Some((co, cs))),
        0 <= j < b.len(),
        j < co + cs,
    ensures
        parse_bin(b.subrange(0, j), field) == Err::<BinModel, R1csError>(R1csError::Truncated),
{
    let bp = b.subrange(0, j);
    if j >= 4 {
        assert(bp.subrange(0, 4) =~= b.subrange(0, 4));
        if j >= 12 {
            assert(u32_at(bp, 4) == u32_at(b, 4));
            assert(u32_at(bp, 8) == u32_at(b, 8));
            lemma_prefix_walk(b, j, 12, u32_at(b, 8), 2, 2, co, cs);
        }
    }
}

} // verus!
verus! {

/// A decoded stream holds exactly as many constraints as its header declares.
pub proof fn lemma_declared_constraint_count(b: Seq<u8>, field: Field, ho: int, hs: int)
    requires
        parse_bin(b, field) is Ok,
        section_of(b, 12, u32_at(b, 8), 1) == Some(Some((ho, hs))),
    ensures
        parse_bin(b, field)->Ok_0.constraints.len() == u32_at(b, ho + 4 + u32_at(b, ho) + 24),
{
    let co_cs = section_of(b, 12, u32_at(b, 8), 2)->Some_0->Some_0;
    let n8 = u32_at(b, ho);
    lemma_constraints_count(
        b,
        co_cs.0 + co_cs.1,
        co_cs.0,
        u32_at(b, ho + 4 + n8 + 24),
        n8,
    );
}

} // verus!
