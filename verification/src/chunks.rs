//! Cutting a sequence into contiguous chunks and putting chunks back together.

use vstd::prelude::*;
use vstd::seq_lib::lemma_flatten_concat;

verus! {

/// Number of chunks of at most `size` elements that `len` elements fill:
/// `len / size`, rounded up.
pub open spec fn chunk_count(len: nat, size: nat) -> nat
    recommends
        size > 0,
{
    ((len + size - 1) / (size as int)) as nat
}

/// The chunks of `s`: contiguous runs of `size` elements, in order, the last
/// one holding what is left (between 1 and `size` elements). An empty
/// sequence has no chunks.
pub open spec fn chunks_of<T>(s: Seq<T>, size: nat) -> Seq<Seq<T>>
    recommends
        size > 0,
    decreases s.len(),
{
    if size == 0 || s.len() == 0 {
        Seq::empty()
    } else if s.len() <= size {
        seq![s]
    } else {
        seq![s.take(size as int)] + chunks_of(s.skip(size as int), size)
    }
}

/// The contents of each vector of `parts`, in order.
pub open spec fn views<T>(parts: Seq<Vec<T>>) -> Seq<Seq<T>> {
    parts.map_values(|p: Vec<T>| p@)
}

/// Cuts `v` into chunks of `size` elements, moving every element into its
/// chunk. The chunks follow each other as their elements did in `v`.
pub fn partition<T>(v: Vec<T>, size: usize) -> (parts: Vec<Vec<T>>)
    requires
        size > 0,
    ensures
        views(parts@) == chunks_of(v@, size as nat),
{
    let ghost input = v@;
    let mut parts: Vec<Vec<T>> = Vec::new();
    let mut current: Vec<T> = Vec::new();
    proof {
        assert(views(parts@) =~= Seq::<Seq<T>>::empty());
        assert(current@ + input.skip(0) =~= input);
    }
    for x in it: v.into_iter()
        invariant
            size > 0,
            it.seq() == input,
            current@.len() < size,
            chunks_of(input, size as nat) == views(parts@) + chunks_of(
                current@ + input.skip(it.index() as int),
                size as nat,
            ),
    {
        let ghost before = current@ + input.skip(it.index() as int);
        let ghost rest = input.skip(it.index() + 1);
        current.push(x);
        proof {
            assert(current@ + rest =~= before);
        }
        if current.len() == size {
            proof {
                let whole = current@ + rest;
                if rest.len() == 0 {
                    assert(whole =~= current@);
                    assert(chunks_of(whole, size as nat) =~= seq![current@] + chunks_of(
                        rest,
                        size as nat,
                    ));
                } else {
                    assert(whole.take(size as int) =~= current@);
                    assert(whole.skip(size as int) =~= rest);
                }
                assert(views(parts@.push(current)) =~= views(parts@) + seq![current@]);
                assert(Seq::<T>::empty() + rest =~= rest);
            }
            parts.push(current);
            current = Vec::new();
        }
    }
    if current.len() > 0 {
        proof {
            assert(current@ + input.skip(input.len() as int) =~= current@);
            assert(views(parts@.push(current)) =~= views(parts@) + seq![current@]);
        }
        parts.push(current);
    } else {
        proof {
            assert(current@ + input.skip(input.len() as int) =~= Seq::<T>::empty());
        }
    }
    parts
}

/// Joins `parts` end to end, moving every element: the elements of the first
/// part come first, then those of the second, and so on.
pub fn assemble<R>(parts: Vec<Vec<R>>) -> (out: Vec<R>)
    ensures
        out@ == views(parts@).flatten(),
{
    let ghost all = parts@;
    let mut out: Vec<R> = Vec::new();
    for part in it: parts.into_iter()
        invariant
            it.seq() == all,
            out@ == views(all.take(it.index() as int)).flatten(),
    {
        let ghost done = all.take(it.index() as int);
        let mut part = part;
        proof {
            assert(all.take(it.index() + 1) =~= done.push(part));
            assert(views(done.push(part)) =~= views(done).push(part@));
            views(done).lemma_flatten_push(part@);
        }
        out.append(&mut part);
    }
    proof {
        assert(all.take(all.len() as int) =~= all);
    }
    out
}

/// Chunks put back end to end give the sequence they were cut from.
pub proof fn lemma_chunks_flatten<T>(s: Seq<T>, size: nat)
    requires
        size > 0,
    ensures
        chunks_of(s, size).flatten() == s,
    decreases s.len(),
{
    if s.len() == 0 {
        assert(chunks_of(s, size).flatten() =~= s);
    } else if s.len() <= size {
        chunks_of(s, size).lemma_flatten_one_element();
    } else {
        let head = s.take(size as int);
        let tail = s.skip(size as int);
        lemma_chunks_flatten(tail, size);
        seq![head].lemma_flatten_one_element();
        lemma_flatten_concat(seq![head], chunks_of(tail, size));
        assert(head + tail =~= s);
    }
}

/// There are `len / size` chunks, rounded up.
pub proof fn lemma_chunks_len<T>(s: Seq<T>, size: nat)
    requires
        size > 0,
    ensures
        chunks_of(s, size).len() == chunk_count(s.len(), size),
    decreases s.len(),
{
    let d = size as int;
    if s.len() == 0 {
        assert((d - 1) / d == 0) by (nonlinear_arith)
            requires
                d > 0,
        ;
    } else if s.len() <= size {
        let n = s.len() as int;
        assert((n + d - 1) / d == 1) by (nonlinear_arith)
            requires
                0 < n <= d,
        ;
    } else {
        let n = s.len() as int;
        lemma_chunks_len(s.skip(d), size);
        assert((n + d - 1) / d == (n - d + d - 1) / d + 1) by (nonlinear_arith)
            requires
                d > 0,
        ;
    }
}

/// Chunk `k` holds the elements from index `k * size` up to, but not
/// including, index `(k + 1) * size`, or up to the end of `s` where that
/// comes first.
pub proof fn lemma_chunk_at<T>(s: Seq<T>, size: nat, k: int)
    requires
        size > 0,
        0 <= k < chunks_of(s, size).len(),
    ensures
        k * size < s.len(),
        chunks_of(s, size)[k] == s.subrange(
            k * size,
            if (k + 1) * size <= s.len() {
                (k + 1) * size
            } else {
                s.len() as int
            },
        ),
    decreases s.len(),
{
    let d = size as int;
    let n = s.len() as int;
    assert(0 * d == 0 && 1 * d == d) by (nonlinear_arith);
    if n == 0 {
    } else if n <= d {
        assert(s.subrange(0, n) =~= s);
    } else if k == 0 {
        assert(s.take(d) =~= s.subrange(0, d));
    } else {
        let tail = s.skip(d);
        assert(chunks_of(s, size)[k] == chunks_of(tail, size)[k - 1]);
        lemma_chunk_at(tail, size, k - 1);
        assert((k - 1) * d == k * d - d) by (nonlinear_arith);
        assert((k - 1 + 1) * d == k * d) by (nonlinear_arith);
        assert((k + 1) * d == k * d + d) by (nonlinear_arith);
        let lo = k * d;
        let hi = if lo + d <= n {
            lo + d
        } else {
            n
        };
        assert(chunks_of(tail, size)[k - 1] == tail.subrange(lo - d, hi - d));
        assert(tail.subrange(lo - d, hi - d) =~= s.subrange(lo, hi));
    }
}

/// No chunk is empty, none is longer than `size`, and only the last one can
/// be shorter.
pub proof fn lemma_chunk_sizes<T>(s: Seq<T>, size: nat, k: int)
    requires
        size > 0,
        0 <= k < chunks_of(s, size).len(),
    ensures
        1 <= chunks_of(s, size)[k].len() <= size,
        k + 1 < chunks_of(s, size).len() ==> chunks_of(s, size)[k].len() == size,
{
    let d = size as int;
    lemma_chunk_at(s, size, k);
    assert(k * d + d == (k + 1) * d) by (nonlinear_arith);
    if k + 1 < chunks_of(s, size).len() {
        lemma_chunk_at(s, size, k + 1);
    }
}

} // verus!
