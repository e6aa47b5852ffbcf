//! Choosing a decoder by the name of a source.
use vstd::prelude::*;
use vstd::string::StrSliceExecFns;

verus! {

/// The two encodings of a relation.
#[derive(Clone, Copy, Debug, PartialEq, Eq, Structural)]
pub enum Encoding {
    Binary,
    Textual,
}

/// The name ends in `.json`.
pub open spec fn is_json_name(s: Seq<char>) -> bool {
    s.len() >= 5 && s.subrange(s.len() - 5, s.len() as int) == seq!['.', 'j', 's', 'o', 'n']
}

/// A name ending in `.json` is a textual document; any other a binary file.
/// The contents are not inspected.
pub fn detect_encoding(name: &str) -> (r: Encoding)
    ensures
        r == (if is_json_name(name@) {
            Encoding::Textual
        } else {
            Encoding::Binary
        }),
{
    let len = name.unicode_len();
    if len < 5 {
        return Encoding::Binary;
    }
    let ghost tail = name@.subrange(len - 5, len as int);
    let c0 = name.get_char(len - 5);
    let c1 = name.get_char(len - 4);
    let c2 = name.get_char(len - 3);
    let c3 = name.get_char(len - 2);
    let c4 = name.get_char(len - 1);
    assert(tail[0] == c0 && tail[1] == c1 && tail[2] == c2 && tail[3] == c3 && tail[4] == c4);
    if c0 == '.' && c1 == 'j' && c2 == 's' && c3 == 'o' && c4 == 'n' {
        assert(tail =~= seq!['.', 'j', 's', 'o', 'n']);
        Encoding::Textual
    } else {
        Encoding::Binary
    }
}

} // verus!
