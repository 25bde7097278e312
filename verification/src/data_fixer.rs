//! Normalisation of stored station identifiers.

use vstd::prelude::*;
use vstd::string::{StrSliceExecFns, StringExecFns};

verus! {

/// Whether a character has the Unicode "Alphabetic" property.
pub uninterp spec fn is_alphabetic_char(c: char) -> bool;

/// Relies on char::is_alphabetic: whether the character has the Unicode
/// "Alphabetic" property, a function of the character alone.
#[verifier::external_body]
fn char_is_alphabetic(c: char) -> (r: bool)
    ensures
        r == is_alphabetic_char(c),
{
    c.is_alphabetic()
}

/// The alphabetic characters of a string, in order.
pub open spec fn alphabetic_of(s: Seq<char>) -> Seq<char>
    decreases s.len(),
{
    if s.len() == 0 {
        Seq::empty()
    } else {
        (if is_alphabetic_char(s[0]) {
            seq![s[0]]
        } else {
            Seq::empty()
        }) + alphabetic_of(s.drop_first())
    }
}

/// Repairs stored records whose shape drifted from what the graph
/// expects.
pub struct DataFixer;

impl DataFixer {
    /// A station identifier reduced to a timing-point code: its
    /// alphabetic characters, with every digit and sign dropped.
    pub fn id_to_tiploc(id: &str) -> (r: String)
        ensures
            r@ == alphabetic_of(id@),
    {
        let n = id.unicode_len();
        let mut out = String::new();
        let mut i: usize = 0;
        proof {
            assert(id@.skip(0) =~= id@);
        }
        while i < n
            invariant
                i <= n,
                n == id@.len(),
                out@ + alphabetic_of(id@.skip(i as int)) == alphabetic_of(id@),
            decreases n - i,
        {
            proof {
                assert(id@.skip(i as int)[0] == id@[i as int]);
                assert(id@.skip(i as int).drop_first() =~= id@.skip(i as int + 1));
            }
            let c = id.get_char(i);
            if char_is_alphabetic(c) {
                let piece = id.substring_char(i, i + 1);
                proof {
                    assert(piece@ =~= seq![id@[i as int]]);
                }
                out.append(piece);
                proof {
                    assert(out@ + alphabetic_of(id@.skip(i as int + 1)) =~= alphabetic_of(id@));
                }
            } else {
                proof {
                    assert(out@ + alphabetic_of(id@.skip(i as int + 1)) =~= alphabetic_of(id@));
                }
            }
            i = i + 1;
        }
        proof {
            assert(id@.skip(n as int) =~= Seq::<char>::empty());
            assert(out@ =~= alphabetic_of(id@));
        }
        out
    }
}

} // verus!
