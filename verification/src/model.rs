//! The mathematical model of the transform: case folding, occurrence counts,
//! and the output owed for a given input, together with the lemmas the
//! encoders' loop invariants rest on.

use vstd::prelude::*;

verus! {

/// The byte value of `(`, the mark of a unit that occurs exactly once.
pub const OPEN_PAREN: u8 = 40;

/// The byte value of `)`, the mark of a unit that occurs two or more times.
pub const CLOSE_PAREN: u8 = 41;

/// The byte value of `A`, the first ASCII upper-case letter.
pub const UPPER_A: u8 = 65;

/// The byte value of `Z`, the last ASCII upper-case letter.
pub const UPPER_Z: u8 = 90;

/// The distance from an ASCII upper-case letter to its lower-case form.
pub const CASE_GAP: u8 = 32;

/// The canonical comparison key of a byte: an ASCII upper-case letter folds
/// to the corresponding lower-case letter; every other value is its own key.
pub open spec fn fold_byte(b: u8) -> u8 {
    if UPPER_A <= b && b <= UPPER_Z {
        (b + CASE_GAP) as u8
    } else {
        b
    }
}

/// The input with every unit replaced by its canonical key.
pub open spec fn fold_seq(s: Seq<u8>) -> Seq<u8> {
    s.map_values(|b: u8| fold_byte(b))
}

/// How many positions of `s` hold exactly the value `k`.
pub open spec fn count_of(s: Seq<u8>, k: u8) -> nat
    decreases s.len(),
{
    if s.len() == 0 {
        0
    } else {
        count_of(s.drop_last(), k) + if s.last() == k {
            1nat
        } else {
            0nat
        }
    }
}

/// How many units of `s` share the canonical key of the unit `b`.
pub open spec fn fold_count(s: Seq<u8>, b: u8) -> nat {
    count_of(fold_seq(s), fold_byte(b))
}

/// Whether the unit at position `i` of `s` is a duplicate: its canonical key
/// occurs at two or more positions of the folded input.
pub open spec fn dup_at(s: Seq<u8>, i: int) -> bool {
    fold_count(s, s[i]) >= 2
}

/// The output byte owed at position `i`.
pub open spec fn encode_byte_at(s: Seq<u8>, i: int) -> u8 {
    if dup_at(s, i) {
        CLOSE_PAREN
    } else {
        OPEN_PAREN
    }
}

/// The whole output owed for the input `s`, as bytes.
pub open spec fn encoding_bytes(s: Seq<u8>) -> Seq<u8> {
    Seq::new(s.len(), |i: int| encode_byte_at(s, i))
}

/// The whole output owed for the input `s`, as the characters of the
/// returned string.
pub open spec fn encoding(s: Seq<u8>) -> Seq<char> {
    encoding_bytes(s).map_values(|b: u8| b as char)
}

/// Folds one byte to its canonical key.
pub fn fold_byte_exec(b: u8) -> (r: u8)
    ensures
        r == fold_byte(b),
{
    if UPPER_A <= b && b <= UPPER_Z {
        b + CASE_GAP
    } else {
        b
    }
}

/// Folds a whole byte string, as an ASCII-lower-casing pass does.
pub fn fold_bytes(text: &[u8]) -> (r: Vec<u8>)
    ensures
        r@ == fold_seq(text@),
{
    let n: usize = text.len();
    let mut r: Vec<u8> = Vec::with_capacity(n);
    let mut i: usize = 0;
    while i < n
        invariant
            n == text@.len(),
            i <= n,
            r@ == fold_seq(text@).take(i as int),
        decreases n - i,
    {
        r.push(fold_byte_exec(text[i]));
        proof {
            assert(fold_seq(text@).take(i + 1) =~= fold_seq(text@).take(i as int).push(
                fold_seq(text@)[i as int],
            ));
        }
        i += 1;
    }
    proof {
        assert(fold_seq(text@).take(n as int) =~= fold_seq(text@));
    }
    r
}

/// Appending one unit raises the count of exactly that unit's value by one.
pub proof fn lemma_count_of_push(s: Seq<u8>, x: u8, k: u8)
    ensures
        count_of(s.push(x), k) == count_of(s, k) + if x == k {
            1nat
        } else {
            0nat
        },
{
    assert(s.push(x).drop_last() =~= s);
}

/// A count never exceeds the length of the sequence.
pub proof fn lemma_count_of_le_len(s: Seq<u8>, k: u8)
    ensures
        count_of(s, k) <= s.len(),
    decreases s.len(),
{
    if s.len() > 0 {
        lemma_count_of_le_len(s.drop_last(), k);
    }
}

/// A value has count zero exactly when no position holds it.
pub proof fn lemma_count_of_zero(s: Seq<u8>, k: u8)
    ensures
        (count_of(s, k) == 0) <==> (forall|j: int| 0 <= j < s.len() ==> s[j] != k),
    decreases s.len(),
{
    if s.len() > 0 {
        lemma_count_of_zero(s.drop_last(), k);
        assert(forall|j: int| 0 <= j < s.len() - 1 ==> s[j] == s.drop_last()[j]);
    }
}

/// Every position's value has a positive count.
pub proof fn lemma_count_of_at_index(s: Seq<u8>, j: int)
    requires
        0 <= j < s.len(),
    ensures
        count_of(s, s[j]) >= 1,
{
    lemma_count_of_zero(s, s[j]);
}

/// With at most one occurrence, any two positions holding the value coincide.
pub proof fn lemma_count_of_one_unique(s: Seq<u8>, k: u8, j1: int, j2: int)
    requires
        count_of(s, k) <= 1,
        0 <= j1 < s.len(),
        0 <= j2 < s.len(),
        s[j1] == k,
        s[j2] == k,
    ensures
        j1 == j2,
    decreases s.len(),
{
    if j1 != j2 {
        let lo = if j1 < j2 {
            j1
        } else {
            j2
        };
        let hi = if j1 < j2 {
            j2
        } else {
            j1
        };
        assert(s.drop_last()[lo] == k);
        if hi == s.len() - 1 {
            lemma_count_of_zero(s.drop_last(), k);
        } else {
            assert(s.drop_last()[hi] == k);
            lemma_count_of_one_unique(s.drop_last(), k, lo, hi);
        }
    }
}

/// Extending a processed prefix by one unit raises exactly that unit's count.
pub proof fn lemma_count_of_take_succ(s: Seq<u8>, i: int, k: u8)
    requires
        0 <= i < s.len(),
    ensures
        count_of(s.take(i + 1), k) == count_of(s.take(i), k) + if s[i] == k {
            1nat
        } else {
            0nat
        },
{
    assert(s.take(i + 1) =~= s.take(i).push(s[i]));
    lemma_count_of_push(s.take(i), s[i], k);
}

/// The multiset of a sequence counts each value as `count_of` does.
pub proof fn lemma_to_multiset_count(s: Seq<u8>, k: u8)
    ensures
        s.to_multiset().count(k) == count_of(s, k),
    decreases s.len(),
{
    broadcast use vstd::seq_lib::group_to_multiset_ensures;

    if s.len() == 0 {
        assert(!s.contains(k));
    } else {
        lemma_to_multiset_count(s.drop_last(), k);
        assert(s =~= s.drop_last().push(s.last()));
        assert(s.drop_last().push(s.last()).to_multiset() =~= s.drop_last().to_multiset().insert(
            s.last(),
        ));
    }
}

} // verus!
