//! The three shapes a constraint system passes through: the raw record that a
//! decoder produces, the normalized relation with its variable counts, and the
//! canonical relation of three sparse matrices.
use crate::field::FieldElem;
use vstd::prelude::*;

verus! {

/// Why a source could not be turned into a relation.
#[derive(Clone, Copy, Debug, PartialEq, Eq, Structural)]
pub enum R1csError {
    /// The stream does not start with the `r1cs` magic bytes.
    BadMagic,
    /// The format version is not 1.
    BadVersion,
    /// A declared count or size runs past the end of the stream.
    Truncated,
    /// The header or the constraints section is absent.
    MissingSection,
    /// The header section's size does not match its field width.
    BadHeader,
    /// The header declares a field other than the expected one.
    FieldMismatch,
    /// A textual document that does not have the expected shape.
    MalformedDocument,
    /// A variable index that is not an unsigned decimal numeral.
    InvalidIndex,
    /// A coefficient that is not an element of the field.
    InvalidCoefficient,
    /// A variable index that is not below the number of wires.
    IndexOutOfRange,
    /// Two terms of one linear combination share a variable index.
    DuplicateIndex,
    /// The public wires outnumber the wires.
    TooFewWires,
}

/// One constraint: the linear combinations `a`, `b`, `c` of
/// `(a · z) * (b · z) = c · z`, each a list of `(variable index, coefficient)`.
#[derive(Clone, Debug)]
pub struct Constraint {
    pub a: Vec<(usize, FieldElem)>,
    pub b: Vec<(usize, FieldElem)>,
    pub c: Vec<(usize, FieldElem)>,
}

/// A linear combination as `(index, value)` pairs.
pub open spec fn lc_view(lc: Seq<(usize, FieldElem)>) -> Seq<(nat, nat)> {
    lc.map_values(|t: (usize, FieldElem)| (t.0 as nat, t.1.value()))
}

/// A matrix row as `(column, value)` pairs.
pub open spec fn row_view(row: Seq<(FieldElem, usize)>) -> Seq<(nat, nat)> {
    row.map_values(|t: (FieldElem, usize)| (t.1 as nat, t.0.value()))
}

/// Every index of the linear combination is below `n`.
pub open spec fn lc_below(lc: Seq<(usize, FieldElem)>, n: nat) -> bool {
    forall|k: int| 0 <= k < lc.len() ==> (#[trigger] lc[k]).0 < n
}

impl Constraint {
    pub open spec fn below(&self, n: nat) -> bool {
        lc_below(self.a@, n) && lc_below(self.b@, n) && lc_below(self.c@, n)
    }

    /// The same constraint, with its terms taken as multisets.
    pub open spec fn same_terms(&self, o: &Constraint) -> bool {
        &&& lc_view(self.a@).to_multiset() == lc_view(o.a@).to_multiset()
        &&& lc_view(self.b@).to_multiset() == lc_view(o.b@).to_multiset()
        &&& lc_view(self.c@).to_multiset() == lc_view(o.c@).to_multiset()
    }
}

/// What a decoder reads from a source: the header counts and the constraints
/// in source order. The binary encoding also gives the private-input count.
#[derive(Clone, Debug)]
pub struct RawR1cs {
    pub n_pub_out: u32,
    pub n_pub_in: u32,
    pub n_prv_in: Option<u32>,
    pub n_wires: u32,
    pub constraints: Vec<Constraint>,
}

impl RawR1cs {
    /// Every index that a constraint references is below the wire count.
    pub open spec fn wf(&self) -> bool {
        forall|i: int|
            0 <= i < self.constraints.len() ==> (#[trigger] self.constraints[i]).below(
                self.n_wires as nat,
            )
    }

    /// The number of public wires, the constant wire included.
    pub open spec fn spec_n_inputs(&self) -> nat {
        (self.n_pub_out + self.n_pub_in + 1) as nat
    }

    /// The two records describe the same relation: equal counts, and the same
    /// terms in each constraint, in whatever order.
    pub open spec fn same_relation(&self, o: &RawR1cs) -> bool {
        &&& self.n_pub_out == o.n_pub_out
        &&& self.n_pub_in == o.n_pub_in
        &&& self.n_wires == o.n_wires
        &&& self.constraints.len() == o.constraints.len()
        &&& forall|i: int|
            0 <= i < self.constraints.len() ==> (#[trigger] self.constraints[i]).same_terms(
                &o.constraints[i],
            )
    }
}

/// The normalized relation: the public prefix of the variable vector
/// (`num_inputs`, the constant wire included), the private suffix
/// (`num_aux`), and the constraints.
#[derive(Clone, Debug)]
pub struct R1CS {
    pub num_inputs: usize,
    pub num_aux: usize,
    pub num_variables: usize,
    pub constraints: Vec<Constraint>,
}

impl R1CS {
    pub open spec fn wf(&self) -> bool {
        &&& self.num_inputs >= 1
        &&& self.num_inputs + self.num_aux == self.num_variables
        &&& forall|i: int|
            0 <= i < self.constraints.len() ==> (#[trigger] self.constraints[i]).below(
                self.num_variables as nat,
            )
    }

    /// `self` is what normalizing `raw` gives.
    pub open spec fn normalizes(&self, raw: RawR1cs) -> bool {
        &&& self.num_inputs == raw.spec_n_inputs()
        &&& self.num_aux == raw.n_wires - raw.spec_n_inputs()
        &&& self.num_variables == raw.n_wires
        &&& self.constraints@ == raw.constraints@
    }
}

/// A sparse matrix: one row per constraint, each a list of
/// `(coefficient, column)` pairs.
#[derive(Clone, Debug)]
pub struct SparseMatrix {
    pub n_rows: usize,
    pub n_cols: usize,
    pub coeffs: Vec<Vec<(FieldElem, usize)>>,
}

impl SparseMatrix {
    /// Every column index is below `n_cols`.
    pub open spec fn columns_bounded(&self) -> bool {
        forall|i: int, k: int|
            0 <= i < self.coeffs.len() && 0 <= k < self.coeffs[i].len() ==> (
            #[trigger] self.coeffs[i][k]).1 < self.n_cols
    }
}

/// The canonical relation handed to the proving backend: the matrices `a`,
/// `b`, `c`, row-aligned, and the boundary `l` between the public prefix and
/// the private suffix of the variable vector.
#[derive(Clone, Debug)]
pub struct CanonicalR1cs {
    pub l: usize,
    pub a: SparseMatrix,
    pub b: SparseMatrix,
    pub c: SparseMatrix,
}

/// Which linear combination of a constraint a matrix collects.
pub open spec fn slot(c: Constraint, m: int) -> Seq<(usize, FieldElem)> {
    if m == 0 {
        c.a@
    } else if m == 1 {
        c.b@
    } else {
        c.c@
    }
}

/// `mat` holds, row by row, the linear combinations `slot(_, m)` of `cs`, over
/// `n_cols` columns.
pub open spec fn collects(mat: SparseMatrix, cs: Seq<Constraint>, m: int, n_cols: nat) -> bool {
    &&& mat.n_rows == cs.len()
    &&& mat.n_cols == n_cols
    &&& mat.coeffs.len() == cs.len()
    &&& forall|i: int|
        0 <= i < cs.len() ==> row_view(#[trigger] mat.coeffs[i]@) == lc_view(slot(cs[i], m))
    &&& forall|i: int, k: int|
        0 <= i < cs.len() && 0 <= k < mat.coeffs[i].len() ==> (
        #[trigger] mat.coeffs[i][k]).0.repr@ == slot(cs[i], m)[k].1.repr@
}

impl CanonicalR1cs {
    /// `self` is what the matrix builder makes of `r`.
    pub open spec fn built_from(&self, r: R1CS) -> bool {
        &&& self.l == r.num_inputs
        &&& collects(self.a, r.constraints@, 0, r.num_variables as nat)
        &&& collects(self.b, r.constraints@, 1, r.num_variables as nat)
        &&& collects(self.c, r.constraints@, 2, r.num_variables as nat)
    }
}

/// Computes the public/private split of a raw record. Fails when the public
/// wires, with the constant wire, outnumber the wires.
pub fn normalize(raw: RawR1cs) -> (r: Result<R1CS, R1csError>)
    ensures
        r is Err <==> raw.spec_n_inputs() > raw.n_wires,
        r is Err ==> r == Err::<R1CS, R1csError>(R1csError::TooFewWires),
        r matches Ok(n) ==> n.normalizes(raw),
        r matches Ok(n) ==> (raw.wf() ==> n.wf()),
{
    let n_inputs: u64 = raw.n_pub_out as u64 + raw.n_pub_in as u64 + 1;
    if n_inputs > raw.n_wires as u64 {
        return Err(R1csError::TooFewWires);
    }
    let num_inputs = n_inputs as u32;
    let num_aux = raw.n_wires - num_inputs;
    Ok(R1CS {
        num_inputs: num_inputs as usize,
        num_aux: num_aux as usize,
        num_variables: raw.n_wires as usize,
        constraints: raw.constraints,
    })
}

} // verus!
verus! {

/// The linear combination `m` (0 for `a`, 1 for `b`, 2 for `c`) of `c`.
fn slot_of(c: &Constraint, m: usize) -> (r: &Vec<(usize, FieldElem)>)
    ensures
        r@ == slot(*c, m as int),
{
    if m == 0 {
        &c.a
    } else if m == 1 {
        &c.b
    } else {
        &c.c
    }
}

/// Turns `(index, coefficient)` terms into `(coefficient, column)` entries.
fn convert_matrix_row(lc: &Vec<(usize, FieldElem)>) -> (r: Vec<(FieldElem, usize)>)
    ensures
        row_view(r@) == lc_view(lc@),
        forall|k: int| 0 <= k < r.len() ==> (#[trigger] r@[k]).1 == lc@[k].0,
        forall|k: int| 0 <= k < r.len() ==> (#[trigger] r@[k]).0.repr@ == lc@[k].1.repr@,
{
    let mut row: Vec<(FieldElem, usize)> = Vec::new();
    let mut k: usize = 0;
    while k < lc.len()
        invariant
            k <= lc.len(),
            row.len() == k,
            forall|j: int|
                0 <= j < k ==> (#[trigger] row@[j]).1 == lc@[j].0 && row@[j].0.repr@
                    == lc@[j].1.repr@,
        decreases lc.len() - k,
    {
        let coeff = lc[k].1.copy();
        row.push((coeff, lc[k].0));
        k = k + 1;
    }
    assert(row_view(row@) =~= lc_view(lc@));
    row
}

/// The matrix of the linear combinations `m` of `cs`, over `n_cols` columns.
fn collect_matrix(cs: &Vec<Constraint>, m: usize, n_cols: usize) -> (r: SparseMatrix)
    ensures
        collects(r, cs@, m as int, n_cols as nat),
        forall|i: int, k: int|
            0 <= i < r.coeffs.len() && 0 <= k < r.coeffs[i].len() ==> (
            #[trigger] r.coeffs[i][k]).1 == slot(cs@[i], m as int)[k].0,
{
    let mut coeffs: Vec<Vec<(FieldElem, usize)>> = Vec::new();
    let mut i: usize = 0;
    while i < cs.len()
        invariant
            i <= cs.len(),
            coeffs.len() == i,
            forall|j: int|
                0 <= j < i ==> row_view(#[trigger] coeffs@[j]@) == lc_view(slot(cs@[j], m as int)),
            forall|j: int, k: int|
                0 <= j < i && 0 <= k < coeffs@[j].len() ==> (#[trigger] coeffs@[j]@[k]).1 == slot(
                    cs@[j],
                    m as int,
                )[k].0,
            forall|j: int, k: int|
                0 <= j < i && 0 <= k < coeffs@[j].len() ==> (#[trigger] coeffs@[j]@[k]).0.repr@
                    == slot(cs@[j], m as int)[k].1.repr@,
        decreases cs.len() - i,
    {
        let row = convert_matrix_row(slot_of(&cs[i], m));
        coeffs.push(row);
        i = i + 1;
    }
    SparseMatrix { n_rows: cs.len(), n_cols, coeffs }
}

/// Assembles the three sparse matrices of a normalized relation. Row `i` of
/// each matrix holds constraint `i`'s terms unchanged; every matrix has one
/// row per constraint and `num_variables` columns; `l` is the number of
/// public wires, the constant wire included.
pub fn extract_r1cs(r1cs: &R1CS) -> (r: CanonicalR1cs)
    ensures
        r.built_from(*r1cs),
        r1cs.wf() ==> r.a.columns_bounded() && r.b.columns_bounded() && r.c.columns_bounded(),
{
    let n = r1cs.num_variables;
    let a = collect_matrix(&r1cs.constraints, 0, n);
    let b = collect_matrix(&r1cs.constraints, 1, n);
    let c = collect_matrix(&r1cs.constraints, 2, n);
    proof {
        if r1cs.wf() {
            assert forall|i: int, k: int|
                0 <= i < a.coeffs.len() && 0 <= k < a.coeffs[i].len() implies (
                #[trigger] a.coeffs[i][k]).1 < a.n_cols by {
                let ci = r1cs.constraints@[i];
                assert(ci.below(n as nat));
                assert(slot(ci, 0) == ci.a@);
                assert(row_view(a.coeffs[i]@).len() == lc_view(ci.a@).len());
                assert(ci.a@[k].0 < n);
            }
            assert forall|i: int, k: int|
                0 <= i < b.coeffs.len() && 0 <= k < b.coeffs[i].len() implies (
                #[trigger] b.coeffs[i][k]).1 < b.n_cols by {
                let ci = r1cs.constraints@[i];
                assert(ci.below(n as nat));
                assert(slot(ci, 1) == ci.b@);
                assert(row_view(b.coeffs[i]@).len() == lc_view(ci.b@).len());
                assert(ci.b@[k].0 < n);
            }
            assert forall|i: int, k: int|
                0 <= i < c.coeffs.len() && 0 <= k < c.coeffs[i].len() implies (
                #[trigger] c.coeffs[i][k]).1 < c.n_cols by {
                let ci = r1cs.constraints@[i];
                assert(ci.below(n as nat));
                assert(slot(ci, 2) == ci.c@);
                assert(row_view(c.coeffs[i]@).len() == lc_view(ci.c@).len());
                assert(ci.c@[k].0 < n);
            }
        }
    }
    CanonicalR1cs { l: r1cs.num_inputs, a, b, c }
}

} // verus!
verus! {

impl CanonicalR1cs {
    /// `self` is what normalizing `raw` and assembling its matrices gives.
    pub open spec fn from_raw(&self, raw: RawR1cs) -> bool {
        &&& self.l == raw.spec_n_inputs()
        &&& collects(self.a, raw.constraints@, 0, raw.n_wires as nat)
        &&& collects(self.b, raw.constraints@, 1, raw.n_wires as nat)
        &&& collects(self.c, raw.constraints@, 2, raw.n_wires as nat)
    }
}

/// Normalizes a raw record and assembles its canonical relation. Fails only
/// when the public wires outnumber the wires.
pub fn canonical_from_raw(raw: RawR1cs) -> (r: Result<CanonicalR1cs, R1csError>)
    ensures
        r is Err <==> raw.spec_n_inputs() > raw.n_wires,
        r is Err ==> r == Err::<CanonicalR1cs, R1csError>(R1csError::TooFewWires),
        r matches Ok(c) ==> c.from_raw(raw),
        r matches Ok(c) ==> (raw.wf() ==> c.a.columns_bounded() && c.b.columns_bounded()
            && c.c.columns_bounded()),
{
    let ghost old_raw = raw;
    match normalize(raw) {
        Err(e) => Err(e),
        Ok(n) => {
            let c = extract_r1cs(&n);
            assert(c.from_raw(old_raw));
            Ok(c)
        },
    }
}

/// The row at `i` of a matrix that collects slot `m` of `cs` has the terms of
/// that slot.
proof fn lemma_row(mat: SparseMatrix, cs: Seq<Constraint>, m: int, n: nat, i: int)
    requires
        collects(mat, cs, m, n),
        0 <= i < cs.len(),
    ensures
        row_view(mat.coeffs[i]@) == lc_view(slot(cs[i], m)),
{
}

/// Relations that agree up to the order of terms in each linear combination
/// (as a binary and a textual encoding of one circuit do) give canonical
/// relations with the same boundary, the same shape, and the same
/// `(column, value)` multiset in every row of every matrix.
pub proof fn lemma_cross_format_equivalence(
    x: RawR1cs,
    y: RawR1cs,
    cx: CanonicalR1cs,
    cy: CanonicalR1cs,
)
    requires
        x.same_relation(&y),
        cx.from_raw(x),
        cy.from_raw(y),
    ensures
        cx.l == cy.l,
        cx.a.n_rows == cy.a.n_rows && cx.b.n_rows == cy.b.n_rows && cx.c.n_rows == cy.c.n_rows,
        cx.a.n_cols == cy.a.n_cols && cx.b.n_cols == cy.b.n_cols && cx.c.n_cols == cy.c.n_cols,
        forall|i: int|
            0 <= i < cx.a.n_rows ==> row_view((#[trigger] cx.a.coeffs[i])@).to_multiset()
                == row_view(cy.a.coeffs[i]@).to_multiset() && row_view(cx.b.coeffs[i]@).to_multiset()
                == row_view(cy.b.coeffs[i]@).to_multiset() && row_view(cx.c.coeffs[i]@).to_multiset()
                == row_view(cy.c.coeffs[i]@).to_multiset(),
{
    assert forall|i: int| 0 <= i < cx.a.n_rows implies row_view(
        (#[trigger] cx.a.coeffs[i])@,
    ).to_multiset() == row_view(cy.a.coeffs[i]@).to_multiset() && row_view(
        cx.b.coeffs[i]@,
    ).to_multiset() == row_view(cy.b.coeffs[i]@).to_multiset() && row_view(
        cx.c.coeffs[i]@,
    ).to_multiset() == row_view(cy.c.coeffs[i]@).to_multiset() by {
        assert(x.constraints[i].same_terms(&y.constraints[i]));
        lemma_row(cx.a, x.constraints@, 0, x.n_wires as nat, i);
        lemma_row(cy.a, y.constraints@, 0, y.n_wires as nat, i);
        lemma_row(cx.b, x.constraints@, 1, x.n_wires as nat, i);
        lemma_row(cy.b, y.constraints@, 1, y.n_wires as nat, i);
        lemma_row(cx.c, x.constraints@, 2, x.n_wires as nat, i);
        lemma_row(cy.c, y.constraints@, 2, y.n_wires as nat, i);
    }
}

/// The shape of every canonical relation: its three matrices have one row
/// per constraint and one column per wire, and `l` counts the public wires.
pub proof fn lemma_shape(raw: RawR1cs, c: CanonicalR1cs)
    requires
        c.from_raw(raw),
    ensures
        c.a.n_rows == c.b.n_rows == c.c.n_rows == raw.constraints.len(),
        c.a.n_cols == c.b.n_cols == c.c.n_cols == raw.n_wires,
        c.l == raw.n_pub_out + raw.n_pub_in + 1,
{
}

} // verus!
