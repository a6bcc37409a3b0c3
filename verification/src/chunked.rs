//! The in-place, chunked, and data-parallel forms of the rewrite pass. The
//! frequency table is frozen after the (always sequential) count pass; the
//! rewrite then only reads the table and writes disjoint output positions, so
//! chunks may be processed in any order, or at once.

use crate::counting::{lemma_models_lookup, models_counts};
use crate::model::{
    count_of, encoding, encoding_bytes, fold_bytes, fold_seq, lemma_count_of_le_len,
    lemma_count_of_take_succ, CLOSE_PAREN, OPEN_PAREN,
};
use crate::output::finish;
use rayon::iter::ParallelIterator;
use rayon::slice::ParallelSlice;
use std::collections::HashMap;
use vstd::arithmetic::mul::lemma_mul_inequality;
use vstd::prelude::*;
use vstd::string::StringSliceAdditionalSpecFns;

verus! {

broadcast use vstd::std_specs::hash::group_hash_axioms;

/// The byte the rewrite pass writes for a folded unit `b`, given the frozen
/// frequency table.
pub open spec fn rewrite_byte(m: Map<u8, usize>, b: u8) -> u8 {
    if m.contains_key(b) && m[b] != 1 {
        CLOSE_PAREN
    } else {
        OPEN_PAREN
    }
}

/// The `ci`-th piece of `s` under a partition into chunks of `cs` units each,
/// the last chunk absorbing the remainder.
pub open spec fn chunk_of(s: Seq<u8>, cs: int, ci: int) -> Seq<u8> {
    s.subrange(
        ci * cs,
        if (ci + 1) * cs <= s.len() {
            (ci + 1) * cs
        } else {
            s.len() as int
        },
    )
}

/// Against a faithful table, the per-byte rewrite of the folded input is
/// exactly the output owed.
pub proof fn lemma_rewrite_is_encoding(m: Map<u8, usize>, s: Seq<u8>)
    requires
        models_counts(m, fold_seq(s)),
    ensures
        fold_seq(s).map_values(|b: u8| rewrite_byte(m, b)) == encoding_bytes(s),
{
    assert forall|i: int| 0 <= i < s.len() implies fold_seq(s).map_values(
        |b: u8| rewrite_byte(m, b),
    )[i] == encoding_bytes(s)[i] by {
        lemma_models_lookup(m, s, i);
    }
    assert(fold_seq(s).map_values(|b: u8| rewrite_byte(m, b)) =~= encoding_bytes(s));
}

/// Builds the frequency table of an already-folded buffer: the sequential
/// count pass shared by the encoders in this module.
fn build_counts(folded: &Vec<u8>) -> (counter: HashMap<u8, usize>)
    ensures
        models_counts(counter@, folded@),
{
    let n: usize = folded.len();
    let mut counter: HashMap<u8, usize> = HashMap::new();
    let mut i: usize = 0;
    while i < n
        invariant
            n == folded@.len(),
            i <= n,
            models_counts(counter@, folded@.take(i as int)),
        decreases n - i,
    {
        let k: u8 = folded[i];
        let c: usize = match counter.get(&k) {
            Some(v) => *v,
            None => 0,
        };
        proof {
            lemma_count_of_le_len(folded@.take(i as int), k);
        }
        counter.insert(k, c + 1);
        proof {
            assert forall|q: u8|
                count_of(folded@.take(i + 1), q) == count_of(folded@.take(i as int), q) + (
                if folded@[i as int] == q {
                    1nat
                } else {
                    0nat
                }) by {
                lemma_count_of_take_succ(folded@, i as int, q);
            }
        }
        i += 1;
    }
    proof {
        assert(folded@.take(n as int) =~= folded@);
    }
    counter
}

/// Rewrites one chunk of the folded input against the frozen table.
fn rewrite_chunk(chunk: &[u8], counts: &HashMap<u8, usize>) -> (out: Vec<u8>)
    ensures
        out@ == chunk@.map_values(|b: u8| rewrite_byte(counts@, b)),
{
    let n: usize = chunk.len();
    let mut out: Vec<u8> = Vec::with_capacity(n);
    let mut i: usize = 0;
    while i < n
        invariant
            n == chunk@.len(),
            i <= n,
            out@ == chunk@.map_values(|b: u8| rewrite_byte(counts@, b)).take(i as int),
        decreases n - i,
    {
        let b: u8 = chunk[i];
        let w: u8 = match counts.get(&b) {
            Some(c) => if *c != 1 {
                CLOSE_PAREN
            } else {
                OPEN_PAREN
            },
            None => OPEN_PAREN,
        };
        out.push(w);
        proof {
            assert(chunk@.map_values(|b: u8| rewrite_byte(counts@, b)).take(i + 1)
                =~= chunk@.map_values(|b: u8| rewrite_byte(counts@, b)).take(i as int).push(
                rewrite_byte(counts@, chunk@[i as int]),
            ));
        }
        i += 1;
    }
    proof {
        assert(chunk@.map_values(|b: u8| rewrite_byte(counts@, b)).take(n as int)
            =~= chunk@.map_values(|b: u8| rewrite_byte(counts@, b)));
    }
    out
}

/// Appends a finished piece to the output buffer.
fn append_bytes(dst: &mut Vec<u8>, src: &[u8])
    ensures
        final(dst)@ == old(dst)@ + src@,
{
    let n: usize = src.len();
    let mut i: usize = 0;
    while i < n
        invariant
            n == src@.len(),
            i <= n,
            dst@ == old(dst)@ + src@.take(i as int),
        decreases n - i,
    {
        dst.push(src[i]);
        proof {
            assert(old(dst)@ + src@.take(i + 1) =~= (old(dst)@ + src@.take(i as int)).push(
                src@[i as int],
            ));
        }
        i += 1;
    }
    proof {
        assert(old(dst)@ + src@.take(n as int) =~= old(dst)@ + src@);
    }
}

/// Like the sequential two-pass encoders, but reusing the folded buffer as
/// the output: every position is overwritten in place, which is safe because
/// the rewrite rule reads only the frozen table, never the buffer.
pub fn duplicate_encode_in_place(text: &str) -> (r: String)
    ensures
        r@ == encoding(text.spec_bytes()),
{
    let ghost s: Seq<u8> = text.spec_bytes();
    let mut buf: Vec<u8> = fold_bytes(text.as_bytes());
    let n: usize = buf.len();
    let counter: HashMap<u8, usize> = build_counts(&buf);
    let mut j: usize = 0;
    while j < n
        invariant
            n == buf@.len(),
            n == s.len(),
            models_counts(counter@, fold_seq(s)),
            j <= n,
            forall|q: int| 0 <= q < j ==> buf@[q] == encoding_bytes(s)[q],
            forall|q: int| j <= q < n ==> buf@[q] == fold_seq(s)[q],
        decreases n - j,
    {
        let b: u8 = buf[j];
        proof {
            lemma_models_lookup(counter@, s, j as int);
        }
        let w: u8 = match counter.get(&b) {
            Some(c) => if *c != 1 {
                CLOSE_PAREN
            } else {
                OPEN_PAREN
            },
            None => OPEN_PAREN,
        };
        buf[j] = w;
        j += 1;
    }
    proof {
        assert(buf@ =~= encoding_bytes(s));
    }
    finish(buf, Ghost(s))
}

/// Like the other two-pass encoders, but the rewrite pass walks the folded
/// input chunk by chunk: behaviorally identical to the plain sequential
/// rewrite, and here to show that the chunk boundaries cover the whole
/// buffer with no gap and no overlap.
pub fn duplicate_encode_chunks(text: &str, chunk_size: usize) -> (r: String)
    requires
        chunk_size >= 1,
    ensures
        r@ == encoding(text.spec_bytes()),
{
    let ghost s: Seq<u8> = text.spec_bytes();
    let folded: Vec<u8> = fold_bytes(text.as_bytes());
    let n: usize = folded.len();
    let counter: HashMap<u8, usize> = build_counts(&folded);
    let mut result: Vec<u8> = Vec::with_capacity(n);
    let mut start: usize = 0;
    while start < n
        invariant
            n == folded@.len(),
            n == s.len(),
            folded@ == fold_seq(s),
            models_counts(counter@, folded@),
            chunk_size >= 1,
            start <= n,
            result@ == folded@.map_values(|b: u8| rewrite_byte(counter@, b)).take(start as int),
        decreases n - start,
    {
        let end: usize = if n - start < chunk_size {
            n
        } else {
            start + chunk_size
        };
        let piece: Vec<u8> = rewrite_chunk(&folded.as_slice()[start..end], &counter);
        append_bytes(&mut result, piece.as_slice());
        proof {
            assert(folded@.map_values(|b: u8| rewrite_byte(counter@, b)).take(end as int)
                =~= folded@.map_values(|b: u8| rewrite_byte(counter@, b)).take(start as int)
                + folded@.subrange(start as int, end as int).map_values(
                |b: u8| rewrite_byte(counter@, b),
            ));
        }
        start = end;
    }
    proof {
        lemma_rewrite_is_encoding(counter@, s);
        assert(folded@.map_values(|b: u8| rewrite_byte(counter@, b)).take(n as int)
            =~= encoding_bytes(s));
    }
    finish(result, Ghost(s))
}

/// Relies on rayon's `par_chunks`, `map` and `collect`: `par_chunks` splits
/// the slice in order into non-overlapping contiguous chunks of `chunk_size`
/// units (the last chunk absorbs the remainder), each parallel worker
/// rewrites its own chunk through `rewrite_chunk`, collecting the indexed
/// parallel iterator keeps the chunk order, and the call blocks until every
/// worker is done.
#[verifier::external_body]
fn par_rewrite_chunks(text: &Vec<u8>, counts: &HashMap<u8, usize>, chunk_size: usize) -> (pieces:
    Vec<Vec<u8>>)
    requires
        chunk_size >= 1,
    ensures
        text@.len() == 0 ==> pieces@.len() == 0,
        text@.len() > 0 ==> (pieces@.len() - 1) * chunk_size < text@.len() <= pieces@.len()
            * chunk_size,
        forall|ci: int|
            0 <= ci < pieces@.len() ==> pieces@[ci]@ == chunk_of(
                text@,
                chunk_size as int,
                ci,
            ).map_values(|b: u8| rewrite_byte(counts@, b)),
{
    text.as_slice().par_chunks(chunk_size).map(|chunk| rewrite_chunk(chunk, counts)).collect()
}

/// Like `duplicate_encode_chunks`, but handing the chunks of the rewrite
/// pass to parallel workers. Each worker reads the frozen table and writes
/// only its own chunk, so the workers need no synchronization; the pieces are
/// joined in chunk order once all workers are done.
pub fn duplicate_encode_parallel(text: &str, chunk_size: usize) -> (r: String)
    requires
        chunk_size >= 1,
    ensures
        r@ == encoding(text.spec_bytes()),
{
    let ghost s: Seq<u8> = text.spec_bytes();
    let folded: Vec<u8> = fold_bytes(text.as_bytes());
    let n: usize = folded.len();
    let counter: HashMap<u8, usize> = build_counts(&folded);
    let pieces: Vec<Vec<u8>> = par_rewrite_chunks(&folded, &counter, chunk_size);
    let m: usize = pieces.len();
    let mut result: Vec<u8> = Vec::with_capacity(n);
    let mut ci: usize = 0;
    let mut done: usize = 0;
    while ci < m
        invariant
            n == folded@.len(),
            n == s.len(),
            folded@ == fold_seq(s),
            models_counts(counter@, folded@),
            chunk_size >= 1,
            m == pieces@.len(),
            n == 0 ==> m == 0,
            n > 0 ==> (m - 1) * chunk_size < n <= m * chunk_size,
            forall|q: int|
                0 <= q < m ==> pieces@[q]@ == chunk_of(folded@, chunk_size as int, q).map_values(
                    |b: u8| rewrite_byte(counter@, b),
                ),
            ci <= m,
            done <= n,
            done as int == (if ci * chunk_size <= n {
                ci * (chunk_size as int)
            } else {
                n as int
            }),
            result@ == folded@.map_values(|b: u8| rewrite_byte(counter@, b)).take(done as int),
        decreases m - ci,
    {
        proof {
            lemma_mul_inequality(ci as int, m - 1, chunk_size as int);
        }
        let piece: &Vec<u8> = &pieces[ci];
        let newdone: usize = if n - done < chunk_size {
            n
        } else {
            done + chunk_size
        };
        proof {
            assert((ci + 1) * (chunk_size as int) == ci * (chunk_size as int) + chunk_size)
                by (nonlinear_arith);
            assert(piece@ == folded@.subrange(done as int, newdone as int).map_values(
                |b: u8| rewrite_byte(counter@, b),
            ));
        }
        append_bytes(&mut result, piece.as_slice());
        proof {
            assert(folded@.map_values(|b: u8| rewrite_byte(counter@, b)).take(newdone as int)
                =~= folded@.map_values(|b: u8| rewrite_byte(counter@, b)).take(done as int)
                + folded@.subrange(done as int, newdone as int).map_values(
                |b: u8| rewrite_byte(counter@, b),
            ));
        }
        done = newdone;
        ci += 1;
    }
    proof {
        lemma_rewrite_is_encoding(counter@, s);
        assert(folded@.map_values(|b: u8| rewrite_byte(counter@, b)).take(n as int)
            =~= encoding_bytes(s));
    }
    finish(result, Ghost(s))
}

} // verus!
