use circom_r1cs::binary::{decode_r1cs_bin, load_r1cs_from_bin};
use circom_r1cs::detect::{detect_encoding, Encoding};
use circom_r1cs::field::{field_contains, parse_coefficient, Field, FieldElem};
use circom_r1cs::relation::{
    canonical_from_raw, extract_r1cs, normalize, Constraint, R1csError, RawR1cs, SparseMatrix,
};
use circom_r1cs::textual::{decode_r1cs_json, load_r1cs_from_json, CircuitJson};
use circom_r1cs::{load_r1cs, Source};

const BN254_BE: [u8; 32] = [
    0x30, 0x64, 0x4e, 0x72, 0xe1, 0x31, 0xa0, 0x29, 0xb8, 0x50, 0x45, 0xb6, 0x81, 0x81, 0x58, 0x5d,
    0x28, 0x33, 0xe8, 0x48, 0x79, 0xb9, 0x70, 0x91, 0x43, 0xe1, 0xf5, 0x93, 0xf0, 0x00, 0x00, 0x01,
];
const BN254_DEC: &str =
    "21888242871839275222246405745257275088548364400416034343698204186575808495617";

fn prime_le() -> Vec<u8> {
    let mut p = BN254_BE.to_vec();
    p.reverse();
    p
}

fn bn254() -> Field {
    Field { n8: 32, prime: prime_le() }
}

fn u32le(v: &mut Vec<u8>, x: u32) {
    v.extend_from_slice(&x.to_le_bytes());
}

fn coeff(v: &mut Vec<u8>, x: u64) {
    let mut c = x.to_le_bytes().to_vec();
    c.resize(32, 0);
    v.extend_from_slice(&c);
}

/// One linear combination: entry count, then (index, coefficient) records.
fn lc(v: &mut Vec<u8>, terms: &[(u32, u64)]) {
    u32le(v, terms.len() as u32);
    for (i, c) in terms {
        u32le(v, *i);
        coeff(v, *c);
    }
}

fn header_section(n_wires: u32, n_pub_out: u32, n_pub_in: u32, n_constraints: u32) -> Vec<u8> {
    let mut h = Vec::new();
    u32le(&mut h, 32);
    h.extend_from_slice(&prime_le());
    u32le(&mut h, n_wires);
    u32le(&mut h, n_pub_out);
    u32le(&mut h, n_pub_in);
    u32le(&mut h, 0);
    h.extend_from_slice(&(n_wires as u64).to_le_bytes());
    u32le(&mut h, n_constraints);
    h
}

fn file_of(sections: &[(u32, Vec<u8>)]) -> Vec<u8> {
    let mut v = b"r1cs".to_vec();
    u32le(&mut v, 1);
    u32le(&mut v, sections.len() as u32);
    for (t, body) in sections {
        u32le(&mut v, *t);
        v.extend_from_slice(&(body.len() as u64).to_le_bytes());
        v.extend_from_slice(body);
    }
    v
}

/// `x * y = z` over wires [1, x, y, z].
fn mul_constraints() -> Vec<u8> {
    let mut c = Vec::new();
    lc(&mut c, &[(1, 1)]);
    lc(&mut c, &[(2, 1)]);
    lc(&mut c, &[(3, 1)]);
    c
}

fn mul_bin() -> Vec<u8> {
    file_of(&[(1, header_section(4, 0, 0, 1)), (2, mul_constraints()), (3, vec![0u8; 32])])
}

fn map_of(entries: &[(&str, &str)]) -> Vec<(String, String)> {
    entries.iter().map(|(k, v)| (k.to_string(), v.to_string())).collect()
}

fn mul_json() -> CircuitJson {
    CircuitJson {
        num_inputs: 0,
        num_outputs: 0,
        num_variables: 4,
        constraints: vec![vec![map_of(&[("1", "1")]), map_of(&[("2", "1")]), map_of(&[("3", "1")])]],
    }
}

fn value(e: &FieldElem) -> Vec<u8> {
    let mut r = e.repr.clone();
    while r.len() > 1 && *r.last().unwrap() == 0 {
        r.pop();
    }
    r
}

fn row(m: &SparseMatrix, i: usize) -> Vec<(Vec<u8>, usize)> {
    let mut r: Vec<(Vec<u8>, usize)> = m.coeffs[i].iter().map(|(c, j)| (value(c), *j)).collect();
    r.sort();
    r
}

fn check_mul(raw: RawR1cs) {
    let norm = normalize(raw.clone()).unwrap();
    assert_eq!(norm.num_inputs, 1);
    assert_eq!(norm.num_aux, 3);
    assert_eq!(norm.num_variables, 4);
    let c = canonical_from_raw(raw).unwrap();
    assert_eq!(c.l, 1);
    for m in [&c.a, &c.b, &c.c] {
        assert_eq!(m.n_rows, 1);
        assert_eq!(m.n_cols, 4);
    }
    assert_eq!(row(&c.a, 0), vec![(vec![1u8], 1usize)]);
    assert_eq!(row(&c.b, 0), vec![(vec![1u8], 2usize)]);
    assert_eq!(row(&c.c, 0), vec![(vec![1u8], 3usize)]);
}

#[test]
fn binary_mul_scenario() {
    let raw = decode_r1cs_bin(&mul_bin(), &bn254()).unwrap();
    assert_eq!(raw.n_wires, 4);
    assert_eq!(raw.n_prv_in, Some(0));
    check_mul(raw);
}

#[test]
fn textual_mul_scenario() {
    let raw = decode_r1cs_json(&mul_json(), &bn254()).unwrap();
    assert_eq!(raw.n_prv_in, None);
    check_mul(raw);
}

#[test]
fn both_encodings_agree() {
    let mut body = Vec::new();
    lc(&mut body, &[(3, 7), (0, 5)]);
    lc(&mut body, &[(1, 2)]);
    lc(&mut body, &[(2, 1), (4, 9)]);
    let bin = file_of(&[(1, header_section(5, 1, 0, 1)), (2, body)]);
    let doc = CircuitJson {
        num_inputs: 0,
        num_outputs: 1,
        num_variables: 5,
        constraints: vec![vec![
            map_of(&[("0", "5"), ("3", "7")]),
            map_of(&[("1", "2")]),
            map_of(&[("2", "1"), ("4", "9")]),
        ]],
    };
    let x = canonical_from_raw(decode_r1cs_bin(&bin, &bn254()).unwrap()).unwrap();
    let y = canonical_from_raw(decode_r1cs_json(&doc, &bn254()).unwrap()).unwrap();
    assert_eq!(x.l, 2);
    assert_eq!(x.l, y.l);
    for (m, n) in [(&x.a, &y.a), (&x.b, &y.b), (&x.c, &y.c)] {
        assert_eq!(m.n_rows, n.n_rows);
        assert_eq!(m.n_cols, n.n_cols);
        assert_eq!(row(m, 0), row(n, 0));
    }
}

#[test]
fn decoding_twice_gives_the_same_relation() {
    let bin = mul_bin();
    let a = decode_r1cs_bin(&bin, &bn254()).unwrap();
    let b = decode_r1cs_bin(&bin, &bn254()).unwrap();
    assert_eq!(format!("{:?}", a), format!("{:?}", b));
    let doc = mul_json();
    let a = decode_r1cs_json(&doc, &bn254()).unwrap();
    let b = decode_r1cs_json(&doc, &bn254()).unwrap();
    assert_eq!(format!("{:?}", a), format!("{:?}", b));
}

#[test]
fn columns_stay_below_variable_count() {
    let raw = decode_r1cs_bin(&mul_bin(), &bn254()).unwrap();
    let c = extract_r1cs(&normalize(raw).unwrap());
    for m in [&c.a, &c.b, &c.c] {
        assert_eq!(m.coeffs.len(), m.n_rows);
        for r in &m.coeffs {
            for (_, j) in r {
                assert!(*j < m.n_cols);
            }
        }
    }
}

#[test]
fn truncated_stream_is_rejected() {
    let mut body = Vec::new();
    u32le(&mut body, 2);
    u32le(&mut body, 1);
    coeff(&mut body, 1);
    let bin = file_of(&[(1, header_section(4, 0, 0, 1)), (2, body)]);
    assert_eq!(decode_r1cs_bin(&bin, &bn254()).unwrap_err(), R1csError::Truncated);
    let full = mul_bin();
    for cut in [3usize, 11, 20, full.len() - 40] {
        assert_eq!(decode_r1cs_bin(&full[..cut], &bn254()).unwrap_err(), R1csError::Truncated);
    }
}

#[test]
fn bad_magic_and_version() {
    let mut bin = mul_bin();
    bin[0] = b'x';
    assert_eq!(decode_r1cs_bin(&bin, &bn254()).unwrap_err(), R1csError::BadMagic);
    let mut bin = mul_bin();
    bin[4] = 2;
    assert_eq!(decode_r1cs_bin(&bin, &bn254()).unwrap_err(), R1csError::BadVersion);
}

#[test]
fn missing_section_and_bad_header() {
    let bin = file_of(&[(1, header_section(4, 0, 0, 1))]);
    assert_eq!(decode_r1cs_bin(&bin, &bn254()).unwrap_err(), R1csError::MissingSection);
    let mut h = header_section(4, 0, 0, 1);
    h.push(0);
    let bin = file_of(&[(1, h), (2, mul_constraints())]);
    assert_eq!(decode_r1cs_bin(&bin, &bn254()).unwrap_err(), R1csError::BadHeader);
}

#[test]
fn sections_in_any_order() {
    let bin = file_of(&[(3, vec![1, 2, 3]), (2, mul_constraints()), (1, header_section(4, 0, 0, 1))]);
    check_mul(decode_r1cs_bin(&bin, &bn254()).unwrap());
}

#[test]
fn binary_index_and_coefficient_checks() {
    let mut body = Vec::new();
    lc(&mut body, &[(4, 1)]);
    lc(&mut body, &[]);
    lc(&mut body, &[]);
    let bin = file_of(&[(1, header_section(4, 0, 0, 1)), (2, body)]);
    assert_eq!(decode_r1cs_bin(&bin, &bn254()).unwrap_err(), R1csError::IndexOutOfRange);
    let mut body = Vec::new();
    u32le(&mut body, 1);
    u32le(&mut body, 1);
    body.extend_from_slice(&prime_le());
    lc(&mut body, &[]);
    lc(&mut body, &[]);
    let bin = file_of(&[(1, header_section(4, 0, 0, 1)), (2, body)]);
    assert_eq!(decode_r1cs_bin(&bin, &bn254()).unwrap_err(), R1csError::InvalidCoefficient);
}

#[test]
fn too_few_wires() {
    let bin = file_of(&[(1, header_section(2, 1, 1, 1)), (2, mul_constraints())]);
    assert_eq!(load_r1cs_from_bin(&bin, &bn254()).unwrap_err(), R1csError::IndexOutOfRange);
    let bin = file_of(&[(1, header_section(2, 1, 1, 0)), (2, vec![])]);
    assert_eq!(load_r1cs_from_bin(&bin, &bn254()).unwrap_err(), R1csError::TooFewWires);
    let mut doc = mul_json();
    doc.num_inputs = 2;
    doc.num_outputs = 2;
    assert_eq!(load_r1cs_from_json(&doc, &bn254()).unwrap_err(), R1csError::TooFewWires);
    let raw = RawR1cs { n_pub_out: 3, n_pub_in: 0, n_prv_in: None, n_wires: 4, constraints: vec![] };
    assert!(normalize(raw.clone()).is_ok());
    let raw = RawR1cs { n_pub_out: 4, ..raw };
    assert_eq!(normalize(raw).unwrap_err(), R1csError::TooFewWires);
}

#[test]
fn malformed_coefficient_is_an_error() {
    for bad in ["abc", "", "1.5", "-3", "0x10", "+5", "1_000", " 1"] {
        let mut doc = mul_json();
        doc.constraints[0][1] = map_of(&[("2", bad)]);
        assert_eq!(decode_r1cs_json(&doc, &bn254()).unwrap_err(), R1csError::InvalidCoefficient);
    }
    let mut doc = mul_json();
    doc.constraints[0][1] = map_of(&[("2", BN254_DEC)]);
    assert_eq!(decode_r1cs_json(&doc, &bn254()).unwrap_err(), R1csError::InvalidCoefficient);
}

#[test]
fn malformed_index_and_shape() {
    let mut doc = mul_json();
    doc.constraints[0][0] = map_of(&[("x1", "1")]);
    assert_eq!(decode_r1cs_json(&doc, &bn254()).unwrap_err(), R1csError::InvalidIndex);
    let mut doc = mul_json();
    doc.constraints[0][0] = map_of(&[("4", "1")]);
    assert_eq!(decode_r1cs_json(&doc, &bn254()).unwrap_err(), R1csError::IndexOutOfRange);
    let mut doc = mul_json();
    doc.constraints[0][0] = map_of(&[("99999999999999999999", "1")]);
    assert_eq!(decode_r1cs_json(&doc, &bn254()).unwrap_err(), R1csError::IndexOutOfRange);
    let mut doc = mul_json();
    doc.constraints[0].pop();
    assert_eq!(decode_r1cs_json(&doc, &bn254()).unwrap_err(), R1csError::MalformedDocument);
}

#[test]
fn decimal_coefficients_are_read() {
    let f = bn254();
    let e = parse_coefficient(&f, "12345").unwrap();
    assert_eq!(value(&e), vec![0x39, 0x30]);
    let e = parse_coefficient(&f, "0").unwrap();
    assert_eq!(value(&e), vec![0]);
    let minus_one = "21888242871839275222246405745257275088548364400416034343698204186575808495616";
    let e = parse_coefficient(&f, minus_one).unwrap();
    let mut expect = prime_le();
    expect[0] -= 1;
    assert_eq!(e.repr, expect);
    assert!(field_contains(&f, &expect));
    assert!(!field_contains(&f, &prime_le()));
}

#[test]
fn encoding_is_chosen_by_name() {
    assert_eq!(detect_encoding("circuit.json"), Encoding::Textual);
    assert_eq!(detect_encoding("dir/a.r1cs"), Encoding::Binary);
    assert_eq!(detect_encoding("json"), Encoding::Binary);
    assert_eq!(detect_encoding("a.json.r1cs"), Encoding::Binary);
    assert_eq!(detect_encoding(".json"), Encoding::Textual);
}

#[test]
fn load_dispatches_on_source() {
    let f = bn254();
    let a = load_r1cs(&Source::Binary(mul_bin()), &f).unwrap();
    let b = load_r1cs(&Source::Textual(mul_json()), &f).unwrap();
    assert_eq!((a.num_inputs, a.num_aux, a.num_variables), (1, 3, 4));
    assert_eq!((b.num_inputs, b.num_aux, b.num_variables), (1, 3, 4));
    let c: Vec<Constraint> = b.constraints;
    assert_eq!(c.len(), 1);
}

#[test]
fn coefficient_bytes_are_checked_against_the_modulus() {
    let f = bn254();
    let e = circom_r1cs::field::coefficient_from_le(&f, vec![5, 0, 1]).unwrap();
    assert_eq!(e.repr, vec![5, 0, 1]);
    assert!(circom_r1cs::field::coefficient_from_le(&f, prime_le()).is_none());
}

#[test]
fn entry_order_does_not_matter() {
    let doc_of = |m: Vec<(String, String)>| CircuitJson {
        num_inputs: 0,
        num_outputs: 0,
        num_variables: 12,
        constraints: vec![vec![m, map_of(&[]), map_of(&[])]],
    };
    let x = decode_r1cs_json(&doc_of(map_of(&[("1", "4"), ("2", "5"), ("10", "6")])), &bn254()).unwrap();
    let y = decode_r1cs_json(&doc_of(map_of(&[("10", "6"), ("2", "5"), ("1", "4")])), &bn254()).unwrap();
    assert_eq!(format!("{:?}", x), format!("{:?}", y));
    let idx: Vec<usize> = x.constraints[0].a.iter().map(|t| t.0).collect();
    assert_eq!(idx, vec![1, 2, 10]);
}

#[test]
fn repeated_index_is_an_error() {
    let mut doc = mul_json();
    doc.constraints[0][0] = map_of(&[("1", "1"), ("01", "2")]);
    assert_eq!(decode_r1cs_json(&doc, &bn254()).unwrap_err(), R1csError::DuplicateIndex);
}

#[test]
fn binary_header_must_declare_the_expected_field() {
    let mut other = bn254();
    other.prime[0] ^= 2;
    assert_eq!(decode_r1cs_bin(&mul_bin(), &other).unwrap_err(), R1csError::FieldMismatch);
    let narrow = Field { n8: 8, prime: prime_le() };
    assert_eq!(load_r1cs(&Source::Binary(mul_bin()), &narrow).unwrap_err(), R1csError::FieldMismatch);
}

#[test]
fn both_encodings_give_identical_bytes() {
    let x = decode_r1cs_bin(&mul_bin(), &bn254()).unwrap();
    let y = decode_r1cs_json(&mul_json(), &bn254()).unwrap();
    assert_eq!(format!("{:?}", x.constraints), format!("{:?}", y.constraints));
    assert_eq!(y.constraints[0].a[0].1.repr.len(), 32);
}
