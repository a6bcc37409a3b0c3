//! The streaming single-pass encoder: one walk over the input, appending a
//! provisional mark per position and retroactively overwriting exactly one
//! earlier position when a key graduates from seen-once to seen-multiple.

use crate::model::{
    count_of, encoding, encoding_bytes, fold_byte_exec, fold_seq, lemma_count_of_one_unique,
    lemma_count_of_take_succ, CLOSE_PAREN, OPEN_PAREN,
};
use crate::output::finish;
use std::collections::HashMap;
use std::collections::HashSet;
use vstd::prelude::*;
use vstd::string::StringSliceAdditionalSpecFns;

verus! {

broadcast use vstd::std_specs::hash::group_hash_axioms;

/// A different approach: loop through the input once and build the output as
/// it goes, without ever materializing global counts.
///
/// While a key has been seen exactly once, the position of that sighting is
/// on record in `seen_once`; at the moment the key is seen a second time,
/// that recorded position is the only earlier position holding the key, so
/// overwriting it with `)` — and appending `)` from then on — keeps every
/// emitted position correct for the input read so far. A key seen two or
/// more times sits in `seen_multiple` and needs no further bookkeeping.
pub fn duplicate_encode_track_seen(text: &str) -> (r: String)
    ensures
        r@ == encoding(text.spec_bytes()),
{
    let ghost s: Seq<u8> = text.spec_bytes();
    let ghost fs: Seq<u8> = fold_seq(s);
    let bytes: &[u8] = text.as_bytes();
    let n: usize = bytes.len();
    let mut seen_once: HashMap<u8, usize> = HashMap::new();
    let mut seen_multiple: HashSet<u8> = HashSet::new();
    let mut output: Vec<u8> = Vec::with_capacity(n);
    let mut i: usize = 0;
    while i < n
        invariant
            n == bytes@.len(),
            bytes@ == s,
            fs == fold_seq(s),
            n == s.len(),
            i <= n,
            output@.len() == i,
            forall|k: u8| #[trigger]
                seen_multiple@.contains(k) <==> count_of(fs.take(i as int), k) >= 2,
            forall|k: u8| #[trigger]
                seen_once@.contains_key(k) <==> count_of(fs.take(i as int), k) == 1,
            forall|k: u8| #[trigger]
                seen_once@.contains_key(k) ==> seen_once@[k] < i && fs[seen_once@[k] as int] == k,
            forall|j: int|
                0 <= j < i ==> output@[j] == (if count_of(fs.take(i as int), fs[j]) >= 2 {
                    CLOSE_PAREN
                } else {
                    OPEN_PAREN
                }),
        decreases n - i,
    {
        let byte: u8 = fold_byte_exec(bytes[i]);
        proof {
            assert(fs[i as int] == byte);
            assert forall|q: u8|
                count_of(fs.take(i + 1), q) == count_of(fs.take(i as int), q) + (if fs[i as int]
                    == q {
                    1nat
                } else {
                    0nat
                }) by {
                lemma_count_of_take_succ(fs, i as int, q);
            }
        }
        let mut new_char: u8 = CLOSE_PAREN;
        if !seen_multiple.contains(&byte) {
            match seen_once.remove(&byte) {
                Some(first) => {
                    output[first] = CLOSE_PAREN;
                    seen_multiple.insert(byte);
                    proof {
                        assert forall|j: int|
                            0 <= j < i && fs[j] == byte implies j == first as int by {
                            lemma_count_of_one_unique(
                                fs.take(i as int),
                                byte,
                                first as int,
                                j,
                            );
                        }
                    }
                },
                None => {
                    seen_once.insert(byte, i);
                    new_char = OPEN_PAREN;
                    proof {
                        assert(count_of(fs.take(i as int), byte) == 0);
                    }
                },
            }
        }
        output.push(new_char);
        i += 1;
    }
    proof {
        assert(fs.take(n as int) =~= fs);
        assert(output@ =~= encoding_bytes(s));
    }
    finish(output, Ghost(s))
}

} // verus!
