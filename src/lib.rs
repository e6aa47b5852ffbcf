//! Ingestion of circom rank-1 constraint systems, from the binary `.r1cs`
//! encoding or the JSON encoding, into one canonical sparse relation.

pub mod binary;
pub mod detect;
pub mod field;
pub mod relation;
pub mod textual;

use binary::{constraint_model, load_r1cs_from_bin, parse_bin};
use field::Field;
use relation::{Constraint, R1csError, R1CS};
use textual::{constraints_are, constraints_result, load_r1cs_from_json, CircuitJson};
use vstd::prelude::*;

verus! {

/// A source in one of the two encodings: the bytes of a binary file, or a
/// textual document already read into its fields.
pub enum Source {
    Binary(Vec<u8>),
    Textual(CircuitJson),
}

/// Decodes and normalizes a source over `field`; a binary file whose header
/// declares another field is refused.
pub fn load_r1cs(source: &Source, field: &Field) -> (r: Result<R1CS, R1csError>)
    ensures
        match source {
            Source::Binary(b) => match parse_bin(b@, *field) {
                Err(e) => r == Err::<R1CS, R1csError>(e),
                Ok(m) => if m.n_pub_out + m.n_pub_in + 1 > m.n_wires {
                    r == Err::<R1CS, R1csError>(R1csError::TooFewWires)
                } else {
                    r matches Ok(n) && n.wf() && n.num_inputs == m.n_pub_out + m.n_pub_in + 1
                        && n.num_aux == m.n_wires - n.num_inputs && n.num_variables == m.n_wires
                        && n.constraints@.map_values(|c: Constraint| constraint_model(c))
                        == m.constraints
                },
            },
            Source::Textual(doc) => match constraints_result(
                doc.constraints@,
                doc.num_variables as nat,
                field.modulus(),
            ) {
                Err(e) => r == Err::<R1CS, R1csError>(e),
                Ok(cs) => if doc.num_outputs + doc.num_inputs + 1 > doc.num_variables {
                    r == Err::<R1CS, R1csError>(R1csError::TooFewWires)
                } else {
                    r matches Ok(n) && n.wf() && n.num_inputs == doc.num_outputs
                        + doc.num_inputs + 1 && n.num_aux == doc.num_variables - n.num_inputs
                        && n.num_variables == doc.num_variables && constraints_are(n.constraints@, cs)
                },
            },
        },
{
    match source {
        Source::Binary(b) => load_r1cs_from_bin(b.as_slice(), field),
        Source::Textual(doc) => load_r1cs_from_json(doc, field),
    }
}

} // verus!
