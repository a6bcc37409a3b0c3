//! The counting-then-rewrite encoders: a sequential first pass builds a
//! frequency table over the folded input; a second pass rewrites every
//! position to `(` or `)` by a table lookup. The variants here differ only in
//! how the table is built and how the output buffer is allocated.

use crate::model::{
    count_of, dup_at, encode_byte_at, encoding, encoding_bytes, fold_byte_exec, fold_bytes,
    fold_seq, lemma_count_of_at_index, lemma_count_of_le_len, lemma_count_of_take_succ,
    lemma_to_multiset_count, CLOSE_PAREN, OPEN_PAREN,
};
use crate::output::finish;
use itertools::Itertools;
use std::collections::HashMap;
use vstd::multiset::Multiset;
use vstd::prelude::*;
use vstd::string::StringSliceAdditionalSpecFns;

verus! {

broadcast use vstd::std_specs::hash::group_hash_axioms;

/// A frequency table models a folded input when it holds exactly the keys
/// that occur in it, each mapped to its occurrence count.
pub open spec fn models_counts(m: Map<u8, usize>, t: Seq<u8>) -> bool {
    &&& forall|k: u8|
        #![trigger m.contains_key(k)]
        #![trigger count_of(t, k)]
        m.contains_key(k) <==> count_of(t, k) > 0
    &&& forall|k: u8| #[trigger] m.contains_key(k) ==> m[k] == count_of(t, k)
}

/// What one lookup in a faithful frequency table tells the rewrite pass: the
/// folded unit at position `i` is always present, and its count is one
/// exactly when the position is not a duplicate.
pub proof fn lemma_models_lookup(m: Map<u8, usize>, s: Seq<u8>, i: int)
    requires
        models_counts(m, fold_seq(s)),
        0 <= i < s.len(),
    ensures
        m.contains_key(fold_seq(s)[i]),
        m[fold_seq(s)[i]] >= 1,
        (m[fold_seq(s)[i]] == 1) <==> !dup_at(s, i),
{
    lemma_count_of_at_index(fold_seq(s), i);
}

/// The baseline form: fold the whole input, count every unit into a
/// hash map grown branch by branch, then rewrite each position by a lookup.
pub fn duplicate_encode(text: &str) -> (r: String)
    ensures
        r@ == encoding(text.spec_bytes()),
{
    let ghost s: Seq<u8> = text.spec_bytes();
    let folded: Vec<u8> = fold_bytes(text.as_bytes());
    let n: usize = folded.len();
    let mut counter: HashMap<u8, usize> = HashMap::new();
    let mut i: usize = 0;
    while i < n
        invariant
            n == folded@.len(),
            i <= n,
            models_counts(counter@, folded@.take(i as int)),
        decreases n - i,
    {
        let k: u8 = folded[i];
        if counter.contains_key(&k) {
            let c: usize = *counter.get(&k).unwrap();
            proof {
                lemma_count_of_le_len(folded@.take(i as int), k);
            }
            counter.insert(k, c + 1);
        } else {
            counter.insert(k, 1);
        }
        proof {
            assert forall|q: u8|
                count_of(folded@.take(i + 1), q) == count_of(folded@.take(i as int), q) + (
                if folded@[i as int] == q {
                    1nat
                } else {
                    0nat
                }) by {
                lemma_count_of_take_succ(folded@, i as int, q);
            }
        }
        i += 1;
    }
    proof {
        assert(folded@.take(n as int) =~= folded@);
    }
    let mut result: Vec<u8> = Vec::new();
    let mut j: usize = 0;
    while j < n
        invariant
            n == folded@.len(),
            n == s.len(),
            folded@ == fold_seq(s),
            j <= n,
            models_counts(counter@, folded@),
            result@ == encoding_bytes(s).take(j as int),
        decreases n - j,
    {
        let k: u8 = folded[j];
        proof {
            lemma_models_lookup(counter@, s, j as int);
        }
        let count: usize = *counter.get(&k).unwrap();
        result.push(
            if count == 1 {
                OPEN_PAREN
            } else {
                CLOSE_PAREN
            },
        );
        proof {
            assert(encoding_bytes(s).take(j + 1) =~= encoding_bytes(s).take(j as int).push(
                encode_byte_at(s, j as int),
            ));
        }
        j += 1;
    }
    proof {
        assert(encoding_bytes(s).take(n as int) =~= encoding_bytes(s));
    }
    finish(result, Ghost(s))
}

/// Like `duplicate_encode`, but populating the frequency table the way an
/// entry that defaults to zero does: read the current count, defaulting to
/// zero for an unseen key, and store its successor.
pub fn duplicate_encode_default(text: &str) -> (r: String)
    ensures
        r@ == encoding(text.spec_bytes()),
{
    let ghost s: Seq<u8> = text.spec_bytes();
    let folded: Vec<u8> = fold_bytes(text.as_bytes());
    let n: usize = folded.len();
    let mut counter: HashMap<u8, usize> = HashMap::new();
    let mut i: usize = 0;
    while i < n
        invariant
            n == folded@.len(),
            i <= n,
            models_counts(counter@, folded@.take(i as int)),
        decreases n - i,
    {
        let k: u8 = folded[i];
        let c: usize = match counter.get(&k) {
            Some(v) => *v,
            None => 0,
        };
        proof {
            lemma_count_of_le_len(folded@.take(i as int), k);
        }
        counter.insert(k, c + 1);
        proof {
            assert forall|q: u8|
                count_of(folded@.take(i + 1), q) == count_of(folded@.take(i as int), q) + (
                if folded@[i as int] == q {
                    1nat
                } else {
                    0nat
                }) by {
                lemma_count_of_take_succ(folded@, i as int, q);
            }
        }
        i += 1;
    }
    proof {
        assert(folded@.take(n as int) =~= folded@);
    }
    let mut result: Vec<u8> = Vec::new();
    let mut j: usize = 0;
    while j < n
        invariant
            n == folded@.len(),
            n == s.len(),
            folded@ == fold_seq(s),
            j <= n,
            models_counts(counter@, folded@),
            result@ == encoding_bytes(s).take(j as int),
        decreases n - j,
    {
        let k: u8 = folded[j];
        proof {
            lemma_models_lookup(counter@, s, j as int);
        }
        let count: usize = *counter.get(&k).unwrap();
        result.push(
            if count == 1 {
                OPEN_PAREN
            } else {
                CLOSE_PAREN
            },
        );
        proof {
            assert(encoding_bytes(s).take(j + 1) =~= encoding_bytes(s).take(j as int).push(
                encode_byte_at(s, j as int),
            ));
        }
        j += 1;
    }
    proof {
        assert(encoding_bytes(s).take(n as int) =~= encoding_bytes(s));
    }
    finish(result, Ghost(s))
}

/// Like `duplicate_encode_default`, but allocating space for the whole
/// result up front instead of growing it push by push.
pub fn duplicate_encode_capacity(text: &str) -> (r: String)
    ensures
        r@ == encoding(text.spec_bytes()),
{
    let ghost s: Seq<u8> = text.spec_bytes();
    let folded: Vec<u8> = fold_bytes(text.as_bytes());
    let n: usize = folded.len();
    let mut counter: HashMap<u8, usize> = HashMap::new();
    let mut i: usize = 0;
    while i < n
        invariant
            n == folded@.len(),
            i <= n,
            models_counts(counter@, folded@.take(i as int)),
        decreases n - i,
    {
        let k: u8 = folded[i];
        let c: usize = match counter.get(&k) {
            Some(v) => *v,
            None => 0,
        };
        proof {
            lemma_count_of_le_len(folded@.take(i as int), k);
        }
        counter.insert(k, c + 1);
        proof {
            assert forall|q: u8|
                count_of(folded@.take(i + 1), q) == count_of(folded@.take(i as int), q) + (
                if folded@[i as int] == q {
                    1nat
                } else {
                    0nat
                }) by {
                lemma_count_of_take_succ(folded@, i as int, q);
            }
        }
        i += 1;
    }
    proof {
        assert(folded@.take(n as int) =~= folded@);
    }
    let mut result: Vec<u8> = Vec::with_capacity(n);
    let mut j: usize = 0;
    while j < n
        invariant
            n == folded@.len(),
            n == s.len(),
            folded@ == fold_seq(s),
            j <= n,
            models_counts(counter@, folded@),
            result@ == encoding_bytes(s).take(j as int),
        decreases n - j,
    {
        let k: u8 = folded[j];
        proof {
            lemma_models_lookup(counter@, s, j as int);
        }
        let count: usize = *counter.get(&k).unwrap();
        result.push(
            if count == 1 {
                OPEN_PAREN
            } else {
                CLOSE_PAREN
            },
        );
        proof {
            assert(encoding_bytes(s).take(j + 1) =~= encoding_bytes(s).take(j as int).push(
                encode_byte_at(s, j as int),
            ));
        }
        j += 1;
    }
    proof {
        assert(encoding_bytes(s).take(n as int) =~= encoding_bytes(s));
    }
    finish(result, Ghost(s))
}

/// Like `duplicate_encode_capacity`, but never materializing a folded copy
/// of the input: each unit is folded on the fly, in both passes.
pub fn duplicate_encode_lower(text: &str) -> (r: String)
    ensures
        r@ == encoding(text.spec_bytes()),
{
    let ghost s: Seq<u8> = text.spec_bytes();
    let bytes: &[u8] = text.as_bytes();
    let n: usize = bytes.len();
    let mut counter: HashMap<u8, usize> = HashMap::new();
    let mut i: usize = 0;
    while i < n
        invariant
            n == bytes@.len(),
            bytes@ == s,
            i <= n,
            models_counts(counter@, fold_seq(s).take(i as int)),
        decreases n - i,
    {
        let k: u8 = fold_byte_exec(bytes[i]);
        let c: usize = match counter.get(&k) {
            Some(v) => *v,
            None => 0,
        };
        proof {
            lemma_count_of_le_len(fold_seq(s).take(i as int), k);
        }
        counter.insert(k, c + 1);
        proof {
            assert forall|q: u8|
                count_of(fold_seq(s).take(i + 1), q) == count_of(fold_seq(s).take(i as int), q) + (
                if fold_seq(s)[i as int] == q {
                    1nat
                } else {
                    0nat
                }) by {
                lemma_count_of_take_succ(fold_seq(s), i as int, q);
            }
        }
        i += 1;
    }
    proof {
        assert(fold_seq(s).take(n as int) =~= fold_seq(s));
    }
    let mut result: Vec<u8> = Vec::with_capacity(n);
    let mut j: usize = 0;
    while j < n
        invariant
            n == bytes@.len(),
            bytes@ == s,
            n == s.len(),
            j <= n,
            models_counts(counter@, fold_seq(s)),
            result@ == encoding_bytes(s).take(j as int),
        decreases n - j,
    {
        let k: u8 = fold_byte_exec(bytes[j]);
        proof {
            lemma_models_lookup(counter@, s, j as int);
        }
        let count: usize = *counter.get(&k).unwrap();
        result.push(
            if count == 1 {
                OPEN_PAREN
            } else {
                CLOSE_PAREN
            },
        );
        proof {
            assert(encoding_bytes(s).take(j + 1) =~= encoding_bytes(s).take(j as int).push(
                encode_byte_at(s, j as int),
            ));
        }
        j += 1;
    }
    proof {
        assert(encoding_bytes(s).take(n as int) =~= encoding_bytes(s));
    }
    finish(result, Ghost(s))
}

/// Relies on `itertools::Itertools::counts`: the returned map holds each
/// item that appears in the iterator, mapped to the number of times it
/// appears, and no other key.
#[verifier::external_body]
fn byte_counts(items: &Vec<u8>) -> (m: HashMap<u8, usize>)
    ensures
        models_counts(m@, items@),
{
    items.iter().copied().counts()
}

/// Like `duplicate_encode_capacity`, but building the frequency table with
/// `itertools` rather than by hand.
pub fn duplicate_encode_itertools(text: &str) -> (r: String)
    ensures
        r@ == encoding(text.spec_bytes()),
{
    let ghost s: Seq<u8> = text.spec_bytes();
    let folded: Vec<u8> = fold_bytes(text.as_bytes());
    let n: usize = folded.len();
    let counter: HashMap<u8, usize> = byte_counts(&folded);
    let mut result: Vec<u8> = Vec::with_capacity(n);
    let mut j: usize = 0;
    while j < n
        invariant
            n == folded@.len(),
            n == s.len(),
            folded@ == fold_seq(s),
            models_counts(counter@, folded@),
            j <= n,
            result@ == encoding_bytes(s).take(j as int),
        decreases n - j,
    {
        let k: u8 = folded[j];
        proof {
            lemma_models_lookup(counter@, s, j as int);
        }
        let count: usize = *counter.get(&k).unwrap();
        result.push(
            if count == 1 {
                OPEN_PAREN
            } else {
                CLOSE_PAREN
            },
        );
        proof {
            assert(encoding_bytes(s).take(j + 1) =~= encoding_bytes(s).take(j as int).push(
                encode_byte_at(s, j as int),
            ));
        }
        j += 1;
    }
    proof {
        assert(encoding_bytes(s).take(n as int) =~= encoding_bytes(s));
    }
    finish(result, Ghost(s))
}

/// Like `duplicate_encode_itertools`, but assembling the output as a mapped
/// pass over the folded input, without allocating its space in advance.
pub fn duplicate_encode_map(text: &str) -> (r: String)
    ensures
        r@ == encoding(text.spec_bytes()),
{
    let ghost s: Seq<u8> = text.spec_bytes();
    let folded: Vec<u8> = fold_bytes(text.as_bytes());
    let n: usize = folded.len();
    let counter: HashMap<u8, usize> = byte_counts(&folded);
    let mut result: Vec<u8> = Vec::new();
    let mut j: usize = 0;
    while j < n
        invariant
            n == folded@.len(),
            n == s.len(),
            folded@ == fold_seq(s),
            models_counts(counter@, folded@),
            j <= n,
            result@ == encoding_bytes(s).take(j as int),
        decreases n - j,
    {
        let k: u8 = folded[j];
        proof {
            lemma_models_lookup(counter@, s, j as int);
        }
        let count: usize = *counter.get(&k).unwrap();
        result.push(
            if count == 1 {
                OPEN_PAREN
            } else {
                CLOSE_PAREN
            },
        );
        proof {
            assert(encoding_bytes(s).take(j + 1) =~= encoding_bytes(s).take(j as int).push(
                encode_byte_at(s, j as int),
            ));
        }
        j += 1;
    }
    proof {
        assert(encoding_bytes(s).take(n as int) =~= encoding_bytes(s));
    }
    finish(result, Ghost(s))
}

/// Like `duplicate_encode_map`, but reading the folded input back through a
/// borrowed byte slice rather than the owned buffer.
pub fn duplicate_encode_bytes(text: &str) -> (r: String)
    ensures
        r@ == encoding(text.spec_bytes()),
{
    let ghost s: Seq<u8> = text.spec_bytes();
    let folded: Vec<u8> = fold_bytes(text.as_bytes());
    let counter: HashMap<u8, usize> = byte_counts(&folded);
    let view: &[u8] = folded.as_slice();
    let n: usize = view.len();
    let mut result: Vec<u8> = Vec::new();
    let mut j: usize = 0;
    while j < n
        invariant
            n == view@.len(),
            n == s.len(),
            view@ == fold_seq(s),
            models_counts(counter@, view@),
            j <= n,
            result@ == encoding_bytes(s).take(j as int),
        decreases n - j,
    {
        let k: u8 = view[j];
        proof {
            lemma_models_lookup(counter@, s, j as int);
        }
        let count: usize = *counter.get(&k).unwrap();
        result.push(
            if count == 1 {
                OPEN_PAREN
            } else {
                CLOSE_PAREN
            },
        );
        proof {
            assert(encoding_bytes(s).take(j + 1) =~= encoding_bytes(s).take(j as int).push(
                encode_byte_at(s, j as int),
            ));
        }
        j += 1;
    }
    proof {
        assert(encoding_bytes(s).take(n as int) =~= encoding_bytes(s));
    }
    finish(result, Ghost(s))
}

#[verifier::external_type_specification]
#[verifier::external_body]
#[verifier::reject_recursive_types(T)]
#[verifier::reject_recursive_types(N)]
#[verifier::reject_recursive_types(S)]
pub struct ExCounter<T, N, S>(counter::Counter<T, N, S>);

/// What a byte counter holds: the multiset of the items it has counted.
pub uninterp spec fn counter_multiset(c: counter::Counter<u8, usize>) -> Multiset<u8>;

/// Relies on `Counter`'s `FromIterator` impl: collecting an iterator of
/// items produces a counter of exactly those items.
#[verifier::external_body]
fn counter_from_bytes(items: &Vec<u8>) -> (c: counter::Counter<u8, usize>)
    ensures
        counter_multiset(c) == items@.to_multiset(),
{
    items.iter().copied().collect()
}

/// Relies on `Counter`'s `Index` impl: indexing returns the item's count,
/// and zero for an item the counter has never seen.
#[verifier::external_body]
fn counter_get(c: &counter::Counter<u8, usize>, b: u8) -> (n: usize)
    ensures
        n as nat == counter_multiset(*c).count(b),
{
    c[&b]
}

/// Like `duplicate_encode_capacity`, but counting with the `counter` crate's
/// `Counter` collection instead of a plain hash map.
pub fn duplicate_encode_counter(text: &str) -> (r: String)
    ensures
        r@ == encoding(text.spec_bytes()),
{
    let ghost s: Seq<u8> = text.spec_bytes();
    let folded: Vec<u8> = fold_bytes(text.as_bytes());
    let n: usize = folded.len();
    let counts: counter::Counter<u8, usize> = counter_from_bytes(&folded);
    let mut result: Vec<u8> = Vec::with_capacity(n);
    let mut j: usize = 0;
    while j < n
        invariant
            n == folded@.len(),
            n == s.len(),
            folded@ == fold_seq(s),
            counter_multiset(counts) == fold_seq(s).to_multiset(),
            j <= n,
            result@ == encoding_bytes(s).take(j as int),
        decreases n - j,
    {
        let k: u8 = folded[j];
        let count: usize = counter_get(&counts, k);
        proof {
            lemma_to_multiset_count(fold_seq(s), k);
            lemma_count_of_at_index(fold_seq(s), j as int);
        }
        result.push(
            if count == 1 {
                OPEN_PAREN
            } else {
                CLOSE_PAREN
            },
        );
        proof {
            assert(encoding_bytes(s).take(j + 1) =~= encoding_bytes(s).take(j as int).push(
                encode_byte_at(s, j as int),
            ));
        }
        j += 1;
    }
    proof {
        assert(encoding_bytes(s).take(n as int) =~= encoding_bytes(s));
    }
    finish(result, Ghost(s))
}

} // verus!
