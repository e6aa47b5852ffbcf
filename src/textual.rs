//! The JSON encoding, once read into a `CircuitJson`: the counts, and for
//! each constraint three maps from a decimal variable index to a decimal
//! coefficient, each map as its `(key, value)` entries.
use crate::field::{
    digits_value, is_digit, is_numeral, numeral_value, parse_coefficient, Field, FieldElem,
};
use crate::relation::{lc_view, normalize, Constraint, R1csError, RawR1cs, R1CS};
use vstd::prelude::*;
use vstd::string::StrSliceExecFns;

verus! {

/// A textual relation document.
#[derive(Clone, Debug)]
pub struct CircuitJson {
    pub num_inputs: u32,
    pub num_outputs: u32,
    pub num_variables: u32,
    pub constraints: Vec<Vec<Vec<(String, String)>>>,
}

/// One entry of a map: its index and coefficient value, or the error it
/// raises, with `n` variables over a field of modulus `p`.
pub open spec fn term_result(k: Seq<char>, v: Seq<char>, n: nat, p: nat) -> Result<
    (nat, nat),
    R1csError,
> {
    match numeral_value(k) {
        None => Err(R1csError::InvalidIndex),
        Some(i) => if i >= n {
            Err(R1csError::IndexOutOfRange)
        } else {
            match numeral_value(v) {
                Some(x) => if x < p {
                    Ok((i, x))
                } else {
                    Err(R1csError::InvalidCoefficient)
                },
                None => Err(R1csError::InvalidCoefficient),
            }
        },
    }
}

/// A map's entries in order, or the first error among them.
pub open spec fn lc_result(lc: Seq<(String, String)>, n: nat, p: nat) -> Result<
    Seq<(nat, nat)>,
    R1csError,
>
    decreases lc.len(),
{
    if lc.len() == 0 {
        Ok(Seq::empty())
    } else {
        match lc_result(lc.drop_last(), n, p) {
            Err(e) => Err(e),
            Ok(ts) => match term_result(lc.last().0@, lc.last().1@, n, p) {
                Err(e) => Err(e),
                Ok(t) => Ok(ts.push(t)),
            },
        }
    }
}

/// A map's terms in document order: the first failing entry's error, or
/// `DuplicateIndex` when two entries share an index.
pub open spec fn lc_outcome(lc: Seq<(String, String)>, n: nat, p: nat) -> Result<
    Seq<(nat, nat)>,
    R1csError,
> {
    match lc_result(lc, n, p) {
        Err(e) => Err(e),
        Ok(ts) => if has_dup_index(ts) {
            Err(R1csError::DuplicateIndex)
        } else {
            Ok(ts)
        },
    }
}

/// A constraint of the document: exactly three maps.
pub open spec fn constraint_result(c: Seq<Vec<(String, String)>>, n: nat, p: nat) -> Result<
    (Seq<(nat, nat)>, Seq<(nat, nat)>, Seq<(nat, nat)>),
    R1csError,
> {
    if c.len() != 3 {
        Err(R1csError::MalformedDocument)
    } else {
        match lc_outcome(c[0]@, n, p) {
            Err(e) => Err(e),
            Ok(x) => match lc_outcome(c[1]@, n, p) {
                Err(e) => Err(e),
                Ok(y) => match lc_outcome(c[2]@, n, p) {
                    Err(e) => Err(e),
                    Ok(z) => Ok((x, y, z)),
                },
            },
        }
    }
}

/// The constraints of the document in order, or the first error among them.
pub open spec fn constraints_result(cs: Seq<Vec<Vec<(String, String)>>>, n: nat, p: nat) -> Result<
    Seq<(Seq<(nat, nat)>, Seq<(nat, nat)>, Seq<(nat, nat)>)>,
    R1csError,
>
    decreases cs.len(),
{
    if cs.len() == 0 {
        Ok(Seq::empty())
    } else {
        match constraints_result(cs.drop_last(), n, p) {
            Err(e) => Err(e),
            Ok(xs) => match constraint_result(cs.last()@, n, p) {
                Err(e) => Err(e),
                Ok(x) => Ok(xs.push(x)),
            },
        }
    }
}

/// Each linear combination of `c` holds the terms of `m`, sorted by index.
pub open spec fn constraint_is(
    c: Constraint,
    m: (Seq<(nat, nat)>, Seq<(nat, nat)>, Seq<(nat, nat)>),
) -> bool {
    sorted_of(lc_view(c.a@), m.0) && sorted_of(lc_view(c.b@), m.1) && sorted_of(lc_view(c.c@), m.2)
}

/// The constraints of `raw` hold the terms of `ms`, one by one.
pub open spec fn constraints_are(cs: Seq<Constraint>, ms: Seq<(Seq<(nat, nat)>, Seq<(nat, nat)>, Seq<(nat, nat)>)>) -> bool {
    cs.len() == ms.len() && forall|i: int| 0 <= i < cs.len() ==> constraint_is(#[trigger] cs[i], ms[i])
}

proof fn lemma_digits_mono(s: Seq<char>, i: int, j: int)
    requires
        0 <= i <= j <= s.len(),
    ensures
        digits_value(s.subrange(0, i)) <= digits_value(s.subrange(0, j)),
    decreases j - i,
{
    if i < j {
        lemma_digits_mono(s, i, j - 1);
        assert(s.subrange(0, j).drop_last() =~= s.subrange(0, j - 1));
    }
}

/// Reads a variable index and checks it against the variable count `n`.
fn parse_index(s: &str, n: u32) -> (r: Result<usize, R1csError>)
    ensures
        match numeral_value(s@) {
            None => r == Err::<usize, R1csError>(R1csError::InvalidIndex),
            Some(i) => if i >= n {
                r == Err::<usize, R1csError>(R1csError::IndexOutOfRange)
            } else {
                r == Ok::<usize, R1csError>(i as usize)
            },
        },
{
    if !is_numeral(s) {
        return Err(R1csError::InvalidIndex);
    }
    let len = s.unicode_len();
    if n == 0 {
        return Err(R1csError::IndexOutOfRange);
    }
    let mut acc: u64 = 0;
    let mut i: usize = 0;
    while i < len
        invariant
            i <= len,
            len == s@.len(),
            forall|j: int| 0 <= j < len ==> is_digit(#[trigger] s@[j]),
            acc == digits_value(s@.subrange(0, i as int)),
            acc < n,
        decreases len - i,
    {
        let c = s.get_char(i);
        assert(s@.subrange(0, i + 1).drop_last() =~= s@.subrange(0, i as int));
        acc = acc * 10 + (c as u64 - '0' as u64);
        i = i + 1;
        if acc >= n as u64 {
            proof {
                lemma_digits_mono(s@, i as int, len as int);
                assert(s@.subrange(0, len as int) =~= s@);
            }
            return Err(R1csError::IndexOutOfRange);
        }
    }
    assert(s@.subrange(0, len as int) =~= s@);
    Ok(acc as usize)
}

} // verus!
verus! {

proof fn lemma_lc_fail(lc: Seq<(String, String)>, i: int, n: nat, p: nat)
    requires
        0 <= i <= lc.len(),
        lc_result(lc.subrange(0, i), n, p) is Err,
    ensures
        lc_result(lc, n, p) == lc_result(lc.subrange(0, i), n, p),
    decreases lc.len() - i,
{
    if i < lc.len() {
        assert(lc.subrange(0, i + 1).drop_last() =~= lc.subrange(0, i));
        lemma_lc_fail(lc, i + 1, n, p);
    } else {
        assert(lc.subrange(0, i) =~= lc);
    }
}

proof fn lemma_constraints_fail(cs: Seq<Vec<Vec<(String, String)>>>, i: int, n: nat, p: nat)
    requires
        0 <= i <= cs.len(),
        constraints_result(cs.subrange(0, i), n, p) is Err,
    ensures
        constraints_result(cs, n, p) == constraints_result(cs.subrange(0, i), n, p),
    decreases cs.len() - i,
{
    if i < cs.len() {
        assert(cs.subrange(0, i + 1).drop_last() =~= cs.subrange(0, i));
        lemma_constraints_fail(cs, i + 1, n, p);
    } else {
        assert(cs.subrange(0, i) =~= cs);
    }
}

/// Reads one map entry.
fn read_term(k: &String, v: &String, n: u32, field: &Field) -> (r: Result<
    (usize, FieldElem),
    R1csError,
>)
    ensures
        match r {
            Ok(t) => term_result(k@, v@, n as nat, field.modulus()) == Ok::<
                (nat, nat),
                R1csError,
            >((t.0 as nat, t.1.value())),
            Err(e) => term_result(k@, v@, n as nat, field.modulus()) == Err::<
                (nat, nat),
                R1csError,
            >(e),
        },
{
    let index = match parse_index(k.as_str(), n) {
        Ok(i) => i,
        Err(e) => return Err(e),
    };
    match parse_coefficient(field, v.as_str()) {
        Some(c) => Ok((index, c)),
        None => Err(R1csError::InvalidCoefficient),
    }
}

/// Reads the entries of one map, in order.
fn read_lc(lc: &Vec<(String, String)>, n: u32, field: &Field) -> (r: Result<
    Vec<(usize, FieldElem)>,
    R1csError,
>)
    ensures
        match r {
            Ok(v) => lc_result(lc@, n as nat, field.modulus()) == Ok::<
                Seq<(nat, nat)>,
                R1csError,
            >(lc_view(v@)) && (forall|k: int| 0 <= k < v.len() ==> (#[trigger] v@[k]).0 < n),
            Err(e) => lc_result(lc@, n as nat, field.modulus()) == Err::<
                Seq<(nat, nat)>,
                R1csError,
            >(e),
        },
{
    let ghost p = field.modulus();
    let mut v: Vec<(usize, FieldElem)> = Vec::new();
    let mut i: usize = 0;
    assert(lc@.subrange(0, 0) =~= Seq::<(String, String)>::empty());
    assert(lc_view(v@) =~= Seq::<(nat, nat)>::empty());
    while i < lc.len()
        invariant
            i <= lc.len(),
            p == field.modulus(),
            lc_result(lc@.subrange(0, i as int), n as nat, p) == Ok::<
                Seq<(nat, nat)>,
                R1csError,
            >(lc_view(v@)),
            forall|k: int| 0 <= k < v.len() ==> (#[trigger] v@[k]).0 < n,
        decreases lc.len() - i,
    {
        assert(lc@.subrange(0, i + 1).drop_last() =~= lc@.subrange(0, i as int));
        assert(lc@.subrange(0, i + 1).last() == lc@[i as int]);
        match read_term(&lc[i].0, &lc[i].1, n, field) {
            Err(e) => {
                proof {
                    lemma_lc_fail(lc@, i + 1, n as nat, p);
                }
                return Err(e);
            },
            Ok(t) => {
                let ghost old_v = v@;
                v.push(t);
                assert(lc_view(v@) =~= lc_view(old_v).push((t.0 as nat, t.1.value())));
            },
        }
        i = i + 1;
    }
    assert(lc@.subrange(0, lc.len() as int) =~= lc@);
    Ok(v)
}

/// Reads one map and sorts its terms by index.
fn read_sorted_lc(lc: &Vec<(String, String)>, n: u32, field: &Field) -> (r: Result<
    Vec<(usize, FieldElem)>,
    R1csError,
>)
    ensures
        match r {
            Ok(v) => lc_outcome(lc@, n as nat, field.modulus()) matches Ok(ts) && sorted_of(
                lc_view(v@),
                ts,
            ) && (forall|k: int| 0 <= k < v.len() ==> (#[trigger] v@[k]).0 < n),
            Err(e) => lc_outcome(lc@, n as nat, field.modulus()) == Err::<
                Seq<(nat, nat)>,
                R1csError,
            >(e),
        },
{
    let terms = match read_lc(lc, n, field) {
        Ok(v) => v,
        Err(e) => return Err(e),
    };
    let sorted = match sort_terms(&terms) {
        Ok(v) => v,
        Err(e) => return Err(e),
    };
    proof {
        let sv = lc_view(sorted@);
        let tv = lc_view(terms@);
        assert forall|k: int| 0 <= k < sorted.len() implies (#[trigger] sorted@[k]).0 < n by {
            assert(sv.contains(sv[k]));
            assert(tv.contains(sv[k]));
            let j = choose|j: int| 0 <= j < tv.len() && tv[j] == sv[k];
            assert(terms@[j].0 < n);
        }
    }
    Ok(sorted)
}

/// Reads one constraint: exactly three maps.
fn read_constraint(c: &Vec<Vec<(String, String)>>, n: u32, field: &Field) -> (r: Result<
    Constraint,
    R1csError,
>)
    ensures
        match r {
            Ok(x) => constraint_result(c@, n as nat, field.modulus()) matches Ok(m)
                && constraint_is(x, m) && x.below(n as nat),
            Err(e) => constraint_result(c@, n as nat, field.modulus()) == Err::<
                (Seq<(nat, nat)>, Seq<(nat, nat)>, Seq<(nat, nat)>),
                R1csError,
            >(e),
        },
{
    if c.len() != 3 {
        return Err(R1csError::MalformedDocument);
    }
    let a = match read_sorted_lc(&c[0], n, field) {
        Ok(v) => v,
        Err(e) => return Err(e),
    };
    let b = match read_sorted_lc(&c[1], n, field) {
        Ok(v) => v,
        Err(e) => return Err(e),
    };
    let cc = match read_sorted_lc(&c[2], n, field) {
        Ok(v) => v,
        Err(e) => return Err(e),
    };
    Ok(Constraint { a, b, c: cc })
}

/// Decodes a textual document into its raw record, over `field`. Fails on
/// a constraint that is not three maps, an index that is not a decimal
/// numeral or not below `num_variables`, a coefficient that is not a decimal
/// numeral below the field's modulus, and two entries of one map with the
/// same index; the first failing map in document order decides the error.
/// Each linear combination comes out sorted by index, whatever the order
/// in which the document lists the entries.
pub fn decode_r1cs_json(doc: &CircuitJson, field: &Field) -> (r: Result<RawR1cs, R1csError>)
    ensures
        match r {
            Ok(raw) => constraints_result(
                doc.constraints@,
                doc.num_variables as nat,
                field.modulus(),
            ) matches Ok(ms) && constraints_are(raw.constraints@, ms) && raw.n_pub_in
                == doc.num_inputs && raw.n_pub_out == doc.num_outputs && raw.n_wires
                == doc.num_variables && raw.n_prv_in is None && raw.wf(),
            Err(e) => constraints_result(
                doc.constraints@,
                doc.num_variables as nat,
                field.modulus(),
            ) == Err::<Seq<(Seq<(nat, nat)>, Seq<(nat, nat)>, Seq<(nat, nat)>)>, R1csError>(e),
        },
{
    let ghost p = field.modulus();
    let n = doc.num_variables;
    let cs = &doc.constraints;
    let mut v: Vec<Constraint> = Vec::new();
    let ghost mut ms: Seq<(Seq<(nat, nat)>, Seq<(nat, nat)>, Seq<(nat, nat)>)> = Seq::empty();
    let mut i: usize = 0;
    assert(cs@.subrange(0, 0) =~= Seq::<Vec<Vec<(String, String)>>>::empty());
    while i < cs.len()
        invariant
            i <= cs.len(),
            p == field.modulus(),
            n == doc.num_variables,
            cs@ == doc.constraints@,
            constraints_result(cs@.subrange(0, i as int), n as nat, p) == Ok::<Seq<(Seq<(nat, nat)>, Seq<(nat, nat)>, Seq<(nat, nat)>)>, R1csError>(ms),
            constraints_are(v@, ms),
            forall|k: int| 0 <= k < v.len() ==> (#[trigger] v@[k]).below(n as nat),
        decreases cs.len() - i,
    {
        assert(cs@.subrange(0, i + 1).drop_last() =~= cs@.subrange(0, i as int));
        assert(cs@.subrange(0, i + 1).last() == cs@[i as int]);
        match read_constraint(&cs[i], n, field) {
            Err(e) => {
                proof {
                    assert(constraints_result(cs@.subrange(0, i + 1), n as nat, p) == Err::<
                        Seq<(Seq<(nat, nat)>, Seq<(nat, nat)>, Seq<(nat, nat)>)>,
                        R1csError,
                    >(e));
                    lemma_constraints_fail(cs@, i + 1, n as nat, p);
                }
                return Err(e);
            },
            Ok(x) => {
                let ghost m = choose|m: (Seq<(nat, nat)>, Seq<(nat, nat)>, Seq<(nat, nat)>)|
                    constraint_result(cs@[i as int]@, n as nat, p) == Ok::<
                        (Seq<(nat, nat)>, Seq<(nat, nat)>, Seq<(nat, nat)>),
                        R1csError,
                    >(m) && constraint_is(x, m);
                let ghost old_v = v@;
                let ghost old_ms = ms;
                v.push(x);
                proof {
                    ms = ms.push(m);
                    assert forall|k: int| 0 <= k < v@.len() implies constraint_is(
                        #[trigger] v@[k],
                        ms[k],
                    ) by {
                        if k < old_v.len() {
                            assert(v@[k] == old_v[k] && ms[k] == old_ms[k]);
                        }
                    }
                }
            },
        }
        i = i + 1;
    }
    assert(cs@.subrange(0, cs.len() as int) =~= cs@);
    Ok(
        RawR1cs {
            n_pub_out: doc.num_outputs,
            n_pub_in: doc.num_inputs,
            n_prv_in: None,
            n_wires: n,
            constraints: v,
        },
    )
}

} // verus!
verus! {

/// Decodes a textual document over `field` and normalizes it.
pub fn load_r1cs_from_json(doc: &CircuitJson, field: &Field) -> (r: Result<R1CS, R1csError>)
    ensures
        match constraints_result(doc.constraints@, doc.num_variables as nat, field.modulus()) {
            Err(e) => r == Err::<R1CS, R1csError>(e),
            Ok(cs) => if doc.num_outputs + doc.num_inputs + 1 > doc.num_variables {
                r == Err::<R1CS, R1csError>(R1csError::TooFewWires)
            } else {
                r matches Ok(n) && n.wf() && n.num_inputs == doc.num_outputs + doc.num_inputs + 1
                    && n.num_aux == doc.num_variables - n.num_inputs && n.num_variables
                    == doc.num_variables && constraints_are(n.constraints@, cs)
            },
        },
{
    match decode_r1cs_json(doc, field) {
        Err(e) => Err(e),
        Ok(raw) => normalize(raw),
    }
}

/// The order in which a map lists its entries does not matter: two maps
/// with the same entries that both decode give the same linear combination.
pub proof fn lemma_entry_order_irrelevant(
    l1: Seq<(String, String)>,
    l2: Seq<(String, String)>,
    n: nat,
    p: nat,
    v1: Seq<(nat, nat)>,
    v2: Seq<(nat, nat)>,
)
    requires
        forall|e: (String, String)| l1.contains(e) <==> l2.contains(e),
        lc_outcome(l1, n, p) matches Ok(ts) && sorted_of(v1, ts),
        lc_outcome(l2, n, p) matches Ok(ts) && sorted_of(v2, ts),
    ensures
        v1 == v2,
{
    let ts1 = lc_outcome(l1, n, p)->Ok_0;
    let ts2 = lc_outcome(l2, n, p)->Ok_0;
    lemma_lc_terms(l1, n, p);
    lemma_lc_terms(l2, n, p);
    assert forall|t: (nat, nat)| v1.contains(t) <==> v2.contains(t) by {
        if ts1.contains(t) {
            let k = choose|k: int| 0 <= k < ts1.len() && ts1[k] == t;
            assert(l2.contains(l1[k]));
            let j = choose|j: int| 0 <= j < l2.len() && l2[j] == l1[k];
            assert(ts2[j] == t);
        }
        if ts2.contains(t) {
            let k = choose|k: int| 0 <= k < ts2.len() && ts2[k] == t;
            assert(l1.contains(l2[k]));
            let j = choose|j: int| 0 <= j < l1.len() && l1[j] == l2[k];
            assert(ts1[j] == t);
        }
    }
    lemma_sorted_unique(v1, v2);
}

/// Each term read from a map is what its entry gives.
proof fn lemma_lc_terms(lc: Seq<(String, String)>, n: nat, p: nat)
    ensures
        lc_result(lc, n, p) matches Ok(ts) ==> ts.len() == lc.len() && forall|k: int|
            0 <= k < lc.len() ==> term_result((#[trigger] lc[k]).0@, lc[k].1@, n, p) == Ok::<
                (nat, nat),
                R1csError,
            >(ts[k]),
    decreases lc.len(),
{
    if lc.len() > 0 {
        lemma_lc_terms(lc.drop_last(), n, p);
        if let Ok(ts) = lc_result(lc, n, p) {
            let d = lc.drop_last();
            assert forall|k: int| 0 <= k < lc.len() implies term_result(
                (#[trigger] lc[k]).0@,
                lc[k].1@,
                n,
                p,
            ) == Ok::<(nat, nat), R1csError>(ts[k]) by {
                if k < d.len() {
                    assert(lc[k] == d[k]);
                }
            }
        }
    }
}

} // verus!
verus! {

/// Indices strictly increase along `s`.
pub open spec fn strictly_sorted(s: Seq<(nat, nat)>) -> bool {
    forall|j: int, k: int| 0 <= j < k < s.len() ==> (#[trigger] s[j]).0 < (#[trigger] s[k]).0
}

/// Two entries of `ts` share an index.
pub open spec fn has_dup_index(ts: Seq<(nat, nat)>) -> bool {
    exists|j: int, k: int| 0 <= j < k < ts.len() && (#[trigger] ts[j]).0 == (#[trigger] ts[k]).0
}

/// `v` holds the terms of `ts`, sorted by index.
pub open spec fn sorted_of(v: Seq<(nat, nat)>, ts: Seq<(nat, nat)>) -> bool {
    strictly_sorted(v) && forall|t: (nat, nat)| v.contains(t) <==> ts.contains(t)
}

proof fn lemma_insert_contains(s: Seq<(nat, nat)>, pos: int, x: (nat, nat))
    requires
        0 <= pos <= s.len(),
    ensures
        forall|t: (nat, nat)| s.insert(pos, x).contains(t) <==> (s.contains(t) || t == x),
{
    s.insert_ensures(pos, x);
    let s2 = s.insert(pos, x);
    assert forall|t: (nat, nat)| s2.contains(t) <==> (s.contains(t) || t == x) by {
        if s2.contains(t) {
            let i = choose|i: int| 0 <= i < s2.len() && s2[i] == t;
            if i < pos {
                assert(s[i] == t);
            } else if i > pos {
                assert(s[i - 1] == t);
            }
        }
        if s.contains(t) {
            let i = choose|i: int| 0 <= i < s.len() && s[i] == t;
            if i < pos {
                assert(s2[i] == t);
            } else {
                assert(s2[i + 1] == t);
            }
        }
        if t == x {
            assert(s2[pos] == t);
        }
    }
}

proof fn lemma_push_contains(s: Seq<(nat, nat)>, x: (nat, nat), t: (nat, nat))
    ensures
        s.push(x).contains(t) <==> (s.contains(t) || t == x),
{
    let s2 = s.push(x);
    if s2.contains(t) {
        let i = choose|i: int| 0 <= i < s2.len() && s2[i] == t;
        if i < s.len() {
            assert(s[i] == t);
        }
    }
    if s.contains(t) {
        let i = choose|i: int| 0 <= i < s.len() && s[i] == t;
        assert(s2[i] == t);
    }
    if t == x {
        assert(s2[s.len() as int] == t);
    }
}

/// Sorted sequences holding the same terms are equal.
pub proof fn lemma_sorted_unique(a: Seq<(nat, nat)>, b: Seq<(nat, nat)>)
    requires
        strictly_sorted(a),
        strictly_sorted(b),
        forall|t: (nat, nat)| a.contains(t) <==> b.contains(t),
    ensures
        a == b,
    decreases a.len(),
{
    if a.len() == 0 {
        if b.len() > 0 {
            assert(b.contains(b[0]));
        }
        assert(a =~= b);
    } else {
        assert(a.contains(a[0]));
        assert(b.contains(a[0]));
        let j = choose|j: int| 0 <= j < b.len() && b[j] == a[0];
        assert(b.contains(b[0]));
        assert(a.contains(b[0]));
        let i = choose|i: int| 0 <= i < a.len() && a[i] == b[0];
        if i > 0 {
            assert(a[0].0 < a[i].0);
        }
        if j > 0 {
            assert(b[0].0 < b[j].0);
        }
        assert(a[0] == b[0]);
        let a1 = a.drop_first();
        let b1 = b.drop_first();
        assert forall|t: (nat, nat)| a1.contains(t) <==> b1.contains(t) by {
            if a1.contains(t) {
                let k = choose|k: int| 0 <= k < a1.len() && a1[k] == t;
                assert(a[k + 1] == t);
                assert(a.contains(t));
                let m = choose|m: int| 0 <= m < b.len() && b[m] == t;
                assert(a[0].0 < a[k + 1].0);
                assert(m != 0);
                assert(b1[m - 1] == t);
            }
            if b1.contains(t) {
                let k = choose|k: int| 0 <= k < b1.len() && b1[k] == t;
                assert(b[k + 1] == t);
                assert(b.contains(t));
                let m = choose|m: int| 0 <= m < a.len() && a[m] == t;
                assert(b[0].0 < b[k + 1].0);
                assert(m != 0);
                assert(a1[m - 1] == t);
            }
        }
        lemma_sorted_unique(a1, b1);
        assert(a =~= seq![a[0]] + a1);
        assert(b =~= seq![b[0]] + b1);
    }
}

/// Sorts a linear combination by index; fails when two terms share an index.
fn sort_terms(v: &Vec<(usize, FieldElem)>) -> (r: Result<Vec<(usize, FieldElem)>, R1csError>)
    ensures
        match r {
            Ok(out) => !has_dup_index(lc_view(v@)) && sorted_of(lc_view(out@), lc_view(v@)),
            Err(e) => e == R1csError::DuplicateIndex && has_dup_index(lc_view(v@)),
        },
{
    let ghost ts = lc_view(v@);
    let mut out: Vec<(usize, FieldElem)> = Vec::new();
    let mut i: usize = 0;
    assert(lc_view(out@) =~= Seq::<(nat, nat)>::empty());
    assert(ts.subrange(0, 0) =~= Seq::<(nat, nat)>::empty());
    while i < v.len()
        invariant
            i <= v.len(),
            ts == lc_view(v@),
            strictly_sorted(lc_view(out@)),
            forall|t: (nat, nat)| lc_view(out@).contains(t) <==> ts.subrange(0, i as int).contains(t),
            !has_dup_index(ts.subrange(0, i as int)),
        decreases v.len() - i,
    {
        let x = v[i].0;
        let ghost xt = ts[i as int];
        let ghost ov = lc_view(out@);
        let mut pos: usize = 0;
        while pos < out.len() && out[pos].0 < x
            invariant
                pos <= out.len(),
                forall|a: int| 0 <= a < pos ==> (#[trigger] out@[a]).0 < x,
            decreases out.len() - pos,
        {
            pos = pos + 1;
        }
        if pos < out.len() && out[pos].0 == x {
            proof {
                assert(ov.contains(ov[pos as int]));
                let j = choose|j: int| 0 <= j < i && ts.subrange(0, i as int)[j] == ov[pos as int];
                assert(ts[j].0 == ts[i as int].0);
                assert(has_dup_index(ts));
            }
            return Err(R1csError::DuplicateIndex);
        }
        let coeff = v[i].1.copy();
        let ghost oo = out@;
        out.insert(pos, (x, coeff));
        proof {
            assert(lc_view(out@) =~= ov.insert(pos as int, xt));
            ov.insert_ensures(pos as int, xt);
            lemma_insert_contains(ov, pos as int, xt);
            assert(ts.subrange(0, i + 1) =~= ts.subrange(0, i as int).push(xt));
            let nv = lc_view(out@);
            assert forall|t: (nat, nat)| nv.contains(t) <==> ts.subrange(0, i + 1).contains(t) by {
                assert(nv.contains(t) <==> (ov.contains(t) || t == xt));
                lemma_push_contains(ts.subrange(0, i as int), xt, t);
                assert(ts.subrange(0, i + 1) == ts.subrange(0, i as int).push(xt));
            }
            assert forall|j: int, k: int| 0 <= j < k < nv.len() implies (#[trigger] nv[j]).0 < (
            #[trigger] nv[k]).0 by {
                if j < pos && k > pos {
                    assert(nv[k] == ov[k - 1]);
                    assert(ov[pos as int].0 > xt.0);
                    if k - 1 > pos {
                        assert(ov[pos as int].0 < ov[k - 1].0);
                    }
                } else if j == pos && k > pos {
                    assert(ov[pos as int].0 > xt.0);
                    if k - 1 > pos {
                        assert(ov[pos as int].0 < ov[k - 1].0);
                    }
                } else if j > pos {
                    assert(nv[j] == ov[j - 1] && nv[k] == ov[k - 1]);
                }
            }
            let tp = ts.subrange(0, i + 1);
            assert forall|j: int, k: int| 0 <= j < k < tp.len() implies (#[trigger] tp[j]).0 != (
            #[trigger] tp[k]).0 by {
                if k == i {
                    assert(ts.subrange(0, i as int).contains(tp[j]));
                    assert(ov.contains(tp[j]));
                    let a = choose|a: int| 0 <= a < ov.len() && ov[a] == tp[j];
                    if a > pos {
                        assert(ov[pos as int].0 < ov[a].0);
                    }
                } else {
                    assert(tp[j] == ts.subrange(0, i as int)[j] && tp[k] == ts.subrange(0, i as int)[k]);
                }
            }
        }
        i = i + 1;
    }
    assert(ts.subrange(0, v.len() as int) =~= ts);
    assert(!has_dup_index(ts));
    assert(sorted_of(lc_view(out@), ts));
    assert(ts == lc_view(v@));
    Ok(out)
}

} // verus!
verus! {

proof fn lemma_lc_all_ok(lc: Seq<(String, String)>, n: nat, p: nat)
    requires
        forall|k: int| 0 <= k < lc.len() ==> term_result((#[trigger] lc[k]).0@, lc[k].1@, n, p) is Ok,
    ensures
        lc_result(lc, n, p) is Ok,
    decreases lc.len(),
{
    if lc.len() > 0 {
        let d = lc.drop_last();
        assert forall|k: int| 0 <= k < d.len() implies term_result((#[trigger] d[k]).0@, d[k].1@, n, p) is Ok by {
            assert(d[k] == lc[k]);
        }
        lemma_lc_all_ok(d, n, p);
        assert(term_result(lc[lc.len() - 1].0@, lc[lc.len() - 1].1@, n, p) is Ok);
    }
}

/// A map that decodes still decodes when its entries are listed in another
/// order, as long as no entry is listed twice.
pub proof fn lemma_entry_order_keeps_success(
    l1: Seq<(String, String)>,
    l2: Seq<(String, String)>,
    n: nat,
    p: nat,
)
    requires
        forall|e: (String, String)| l1.contains(e) <==> l2.contains(e),
        l2.no_duplicates(),
        lc_outcome(l1, n, p) is Ok,
    ensures
        lc_outcome(l2, n, p) is Ok,
{
    let ts1 = lc_result(l1, n, p)->Ok_0;
    lemma_lc_terms(l1, n, p);
    assert forall|k: int| 0 <= k < l2.len() implies term_result(
        (#[trigger] l2[k]).0@,
        l2[k].1@,
        n,
        p,
    ) is Ok by {
        assert(l2.contains(l2[k]));
        let j = choose|j: int| 0 <= j < l1.len() && l1[j] == l2[k];
        assert(term_result(l1[j].0@, l1[j].1@, n, p) == Ok::<(nat, nat), R1csError>(ts1[j]));
    }
    lemma_lc_all_ok(l2, n, p);
    lemma_lc_terms(l2, n, p);
    let ts2 = lc_result(l2, n, p)->Ok_0;
    if has_dup_index(ts2) {
        let (j, k) = choose|j: int, k: int|
            0 <= j < k < ts2.len() && (#[trigger] ts2[j]).0 == (#[trigger] ts2[k]).0;
        assert(l2[j] != l2[k]);
        assert(l2.contains(l2[j]) && l2.contains(l2[k]));
        let a = choose|a: int| 0 <= a < l1.len() && l1[a] == l2[j];
        let b = choose|b: int| 0 <= b < l1.len() && l1[b] == l2[k];
        assert(ts1[a] == ts2[j] && ts1[b] == ts2[k]);
        assert(a != b);
        if a < b {
            assert(ts1[a].0 == ts1[b].0);
        } else {
            assert(ts1[b].0 == ts1[a].0);
        }
        assert(has_dup_index(ts1));
    }
}

} // verus!
