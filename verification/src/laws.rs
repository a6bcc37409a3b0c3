//! The laws that hold of every encoder in this crate, stated and proved over
//! the model that each encoder's contract refers to.

use crate::model::{encoding, fold_count};
use vstd::prelude::*;

verus! {

/// Length preservation: the output owed for an input has exactly one unit per
/// input unit, so every encoder — whose contract pins its result to
/// `encoding` — returns a string of the input's byte length.
pub proof fn lemma_length_preservation(s: Seq<u8>)
    ensures
        encoding(s).len() == s.len(),
{
}

/// Alphabet closure: every unit of the output is `(` or `)`.
pub proof fn lemma_alphabet_closure(s: Seq<u8>, i: int)
    requires
        0 <= i < s.len(),
    ensures
        encoding(s)[i] == '(' || encoding(s)[i] == ')',
{
}

/// The duplicate-count law: the output holds `)` at a position exactly when
/// the case-folded unit there occurs two or more times in the case-folded
/// input.
pub proof fn lemma_duplicate_count_law(s: Seq<u8>, i: int)
    requires
        0 <= i < s.len(),
    ensures
        (encoding(s)[i] == ')') <==> fold_count(s, s[i]) >= 2,
{
}

/// Cross-implementation equivalence: any two encoders of this crate agree on
/// every input, because each one's contract pins its result to `encoding` of
/// the input's bytes.
pub proof fn lemma_variants_agree(s: Seq<u8>, a: Seq<char>, b: Seq<char>)
    requires
        a == encoding(s),
        b == encoding(s),
    ensures
        a == b,
{
}

/// Determinism: encoding the same input twice gives the same output — the
/// result any encoder owes is a function of the input's bytes alone.
pub proof fn lemma_encode_deterministic(s: Seq<u8>, first: Seq<char>, second: Seq<char>)
    requires
        first == encoding(s),
        second == encoding(s),
    ensures
        first == second,
{
}

} // verus!
