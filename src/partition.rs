//! Splitting the document list into contiguous chunks, one per worker.

use vstd::prelude::*;
use vstd::arithmetic::div_mod::{lemma_fundamental_div_mod, lemma_mod_bound};
use crate::error::PipelineError;

verus! {

/// The number of workers actually used: the request, capped at the document count.
pub open spec fn effective_count(requested: int, doc_count: int) -> int {
    if requested <= doc_count { requested } else { doc_count }
}

/// The chunk length, `ceil(doc_count / effective_count(requested, doc_count))`.
pub open spec fn chunk_len(requested: int, doc_count: int) -> int {
    (doc_count - 1) / effective_count(requested, doc_count) + 1
}

/// Where chunk `i` starts: after `i` full chunks of `size`, but late enough that each of
/// the `m - i` chunks left still gets a document.
pub open spec fn chunk_start(len: int, m: int, size: int, i: int) -> int {
    if i * size <= len - m + i { i * size } else { len - m + i }
}

/// Chunk `i` of `m`: the documents from its start to the next chunk's start.
pub open spec fn chunk_at(docs: Seq<String>, m: int, size: int, i: int) -> Seq<String> {
    let len = docs.len() as int;
    docs.subrange(chunk_start(len, m, size, i), chunk_start(len, m, size, i + 1))
}

/// The chunks that a non-empty document list is split into for `requested` workers: one
/// per effective worker, contiguous, in order.
pub open spec fn chunks_of(docs: Seq<String>, requested: int) -> Seq<Seq<String>> {
    let len = docs.len() as int;
    let m = effective_count(requested, len);
    let size = chunk_len(requested, len);
    Seq::new(m as nat, |i: int| chunk_at(docs, m, size, i))
}

/// The contents of each chunk.
pub open spec fn chunk_views(chunks: Seq<Vec<String>>) -> Seq<Seq<String>> {
    chunks.map_values(|c: Vec<String>| c@)
}

proof fn lemma_chunk_len_bounds(requested: int, doc_count: int)
    requires
        requested >= 1,
        doc_count >= 1,
    ensures
        chunk_len(requested, doc_count) >= 1,
        chunk_len(requested, doc_count) * effective_count(requested, doc_count) >= doc_count,
{
    let m = effective_count(requested, doc_count);
    let q = (doc_count - 1) / m;
    lemma_fundamental_div_mod(doc_count - 1, m);
    lemma_mod_bound(doc_count - 1, m);
    assert(q >= 0) by (nonlinear_arith)
        requires doc_count - 1 == m * q + (doc_count - 1) % m, 0 <= (doc_count - 1) % m < m, doc_count >= 1, m >= 1;
    assert((q + 1) * m >= doc_count) by (nonlinear_arith)
        requires doc_count - 1 == m * q + (doc_count - 1) % m, 0 <= (doc_count - 1) % m < m;
}

proof fn lemma_start_step(len: int, m: int, size: int, i: int)
    requires
        1 <= m <= len,
        size >= 1,
        0 <= i < m,
    ensures
        0 <= chunk_start(len, m, size, i),
        chunk_start(len, m, size, i) + 1 <= chunk_start(len, m, size, i + 1),
        chunk_start(len, m, size, i + 1) <= chunk_start(len, m, size, i) + size,
{
    assert((i + 1) * size == i * size + size) by (nonlinear_arith);
    assert(i * size >= 0) by (nonlinear_arith) requires i >= 0, size >= 1;
}

proof fn lemma_start_ends(len: int, m: int, size: int)
    requires
        1 <= m <= len,
        size >= 1,
        size * m >= len,
    ensures
        chunk_start(len, m, size, 0) == 0,
        chunk_start(len, m, size, m) == len,
{
    assert(0 * size == 0) by (nonlinear_arith);
    assert(m * size >= len) by (nonlinear_arith) requires size * m >= len;
}

proof fn lemma_flatten_prefix(docs: Seq<String>, m: int, size: int, j: int)
    requires
        1 <= m <= docs.len(),
        size >= 1,
        size * m >= docs.len(),
        0 <= j <= m,
    ensures
        Seq::new(j as nat, |i: int| chunk_at(docs, m, size, i)).flatten()
            == docs.subrange(0, chunk_start(docs.len() as int, m, size, j)),
    decreases j,
{
    let len = docs.len() as int;
    let s = Seq::new(j as nat, |i: int| chunk_at(docs, m, size, i));
    lemma_start_ends(len, m, size);
    if j == 0 {
        assert(s =~= Seq::<Seq<String>>::empty());
        assert(s.flatten() =~= Seq::<String>::empty());
        assert(docs.subrange(0, 0) =~= Seq::<String>::empty());
    } else {
        lemma_flatten_prefix(docs, m, size, j - 1);
        lemma_start_step(len, m, size, j - 1);
        if j < m {
            lemma_start_step(len, m, size, j);
        }
        let p = Seq::new((j - 1) as nat, |i: int| chunk_at(docs, m, size, i));
        assert(s =~= p.push(chunk_at(docs, m, size, j - 1)));
        p.lemma_flatten_push(chunk_at(docs, m, size, j - 1));
        assert(docs.subrange(0, chunk_start(len, m, size, j - 1)) + chunk_at(docs, m, size, j - 1)
            =~= docs.subrange(0, chunk_start(len, m, size, j)));
    }
}

/// Partitioning loses, duplicates and reorders nothing: the chunks, joined in order, are
/// the document list; there is one chunk per effective worker; every chunk is non-empty
/// and no longer than the chunk size.
pub proof fn lemma_partition_complete(docs: Seq<String>, requested: int)
    requires
        requested >= 1,
        docs.len() >= 1,
    ensures
        chunks_of(docs, requested).flatten() == docs,
        chunks_of(docs, requested).len() == effective_count(requested, docs.len() as int),
        forall|i: int| 0 <= i < chunks_of(docs, requested).len()
            ==> 1 <= (#[trigger] chunks_of(docs, requested)[i]).len() <= chunk_len(requested, docs.len() as int),
{
    let len = docs.len() as int;
    let m = effective_count(requested, len);
    let size = chunk_len(requested, len);
    lemma_chunk_len_bounds(requested, len);
    lemma_flatten_prefix(docs, m, size, m);
    lemma_start_ends(len, m, size);
    assert(chunks_of(docs, requested) =~= Seq::new(m as nat, |i: int| chunk_at(docs, m, size, i)));
    assert(docs.subrange(0, len) =~= docs);
    assert forall|i: int| 0 <= i < m implies
        1 <= (#[trigger] chunks_of(docs, requested)[i]).len() <= size by {
        lemma_start_step(len, m, size, i);
        if i + 1 < m {
            lemma_start_step(len, m, size, i + 1);
        }
    }
}

/// The number of workers to use for `doc_count` documents when `requested` are asked for.
pub fn effective_worker_count(requested: usize, doc_count: usize) -> (r: usize)
    ensures
        r == effective_count(requested as int, doc_count as int),
{
    if requested <= doc_count { requested } else { doc_count }
}

/// The length of each chunk: the document count divided by the effective worker count,
/// rounded up.
pub fn chunk_size(requested: usize, doc_count: usize) -> (r: usize)
    requires
        requested >= 1,
        doc_count >= 1,
    ensures
        r == chunk_len(requested as int, doc_count as int),
        r >= 1,
{
    let m = effective_worker_count(requested, doc_count);
    (doc_count - 1) / m + 1
}

/// Splits `docs` into one contiguous chunk per effective worker, each of at most
/// `chunk_size(workers, docs.len())` documents and none empty. An empty list is refused.
pub fn partition(docs: &Vec<String>, workers: usize) -> (r: Result<Vec<Vec<String>>, PipelineError>)
    requires
        workers >= 1,
    ensures
        docs@.len() == 0 <==> r is Err,
        r is Err ==> r == Err::<Vec<Vec<String>>, PipelineError>(PipelineError::EmptyInput),
        r is Ok ==> r->Ok_0@.len() == effective_count(workers as int, docs@.len() as int),
        r is Ok ==> chunk_views(r->Ok_0@) == chunks_of(docs@, workers as int),
{
    if docs.len() == 0 {
        return Err(PipelineError::EmptyInput);
    }
    let len = docs.len();
    let m = effective_worker_count(workers, len);
    let size = chunk_size(workers, len);
    proof {
        lemma_chunk_len_bounds(workers as int, len as int);
        lemma_start_ends(len as int, m as int, size as int);
    }
    let mut chunks: Vec<Vec<String>> = Vec::new();
    let mut start: usize = 0;
    for i in 0..m
        invariant
            len == docs@.len(),
            1 <= m <= len,
            m == effective_count(workers as int, len as int),
            size == chunk_len(workers as int, len as int),
            size >= 1,
            size * m >= len,
            chunks@.len() == i,
            start == chunk_start(len as int, m as int, size as int, i as int),
            forall|j: int| 0 <= j < i
                ==> (#[trigger] chunks@[j])@ == chunk_at(docs@, m as int, size as int, j),
    {
        proof {
            lemma_start_step(len as int, m as int, size as int, i as int);
            assert((i + 1) * size == i * size + size) by (nonlinear_arith);
        }
        let cap = len - (m - 1 - i);
        let end: usize = if size <= cap - start { start + size } else { cap };
        assert(end == chunk_start(len as int, m as int, size as int, i + 1));
        let mut chunk: Vec<String> = Vec::new();
        let mut j: usize = start;
        while j < end
            invariant
                start <= j <= end <= len,
                len == docs@.len(),
                chunk@ == docs@.subrange(start as int, j as int),
            decreases end - j,
        {
            chunk.push(docs[j].clone());
            assert(chunk@ =~= docs@.subrange(start as int, j + 1));
            j = j + 1;
        }
        chunks.push(chunk);
        start = end;
    }
    assert(chunk_views(chunks@) =~= chunks_of(docs@, workers as int));
    Ok(chunks)
}

} // verus!
