use vstd::prelude::*;

verus! {

/// The size of every chunk but the last when `size` indices are split
/// among `workers` workers.
pub open spec fn chunk_size(size: nat, workers: nat) -> nat {
    size / workers
}

/// The first index of worker `i`'s chunk.
pub open spec fn chunk_start(size: nat, workers: nat, i: nat) -> nat {
    i * chunk_size(size, workers)
}

/// The index after the last of worker `i`'s chunk: the last worker takes
/// what is left.
pub open spec fn chunk_end(size: nat, workers: nat, i: nat) -> nat {
    if i + 1 == workers {
        size
    } else {
        (i + 1) * chunk_size(size, workers)
    }
}

/// Whether index `idx` falls to worker `i`.
pub open spec fn in_chunk(size: nat, workers: nat, i: nat, idx: nat) -> bool {
    chunk_start(size, workers, i) <= idx < chunk_end(size, workers, i)
}

/// The worker that index `idx` falls to.
pub open spec fn owner(size: nat, workers: nat, idx: nat) -> nat {
    let chunk = chunk_size(size, workers);
    if chunk == 0 || idx / chunk >= workers {
        (workers - 1) as nat
    } else {
        idx / chunk
    }
}

/// The chunks that a sequence of cells is split into: for each worker, the
/// cells at the indices of that worker's chunk.
pub open spec fn chunks_of(cells: Seq<u8>, workers: nat) -> Seq<Seq<u8>> {
    Seq::new(
        workers,
        |i: int|
            cells.subrange(
                chunk_start(cells.len(), workers, i as nat) as int,
                chunk_end(cells.len(), workers, i as nat) as int,
            ),
    )
}

/// Whether chunks handed back by workers have the shape of the plan: one
/// chunk for each worker, of the length of that worker's chunk, holding
/// cells that are 0 or 1.
pub open spec fn chunks_fit(chunks: Seq<Seq<u8>>, size: nat, workers: nat) -> bool {
    &&& chunks.len() == workers
    &&& forall|i: int|
        0 <= i < chunks.len() ==> (#[trigger] chunks[i]).len() == chunk_end(size, workers, i as nat)
            - chunk_start(size, workers, i as nat)
    &&& forall|i: int, j: int|
        0 <= i < chunks.len() && 0 <= j < chunks[i].len() ==> #[trigger] chunks[i][j] <= 1
}

/// The bounds of worker `i`'s chunk of `size` indices split among
/// `workers` workers: the first index and the one after the last.
pub fn chunk_range(size: usize, workers: usize, i: usize) -> (range: (usize, usize))
    requires
        workers > 0,
        i < workers,
    ensures
        range.0 == chunk_start(size as nat, workers as nat, i as nat),
        range.1 == chunk_end(size as nat, workers as nat, i as nat),
        range.0 <= range.1 <= size,
{
    let chunk = size / workers;
    proof {
        lemma_chunks_contiguous(size as nat, workers as nat, i as nat);
        assert(i * chunk + chunk == (i + 1) * chunk) by (nonlinear_arith);
    }
    let start = i * chunk;
    let end = if i == workers - 1 {
        size
    } else {
        start + chunk
    };
    (start, end)
}

/// The chunks of all workers, in the order of the workers.
pub fn partition(size: usize, workers: usize) -> (chunks: Vec<(usize, usize)>)
    requires
        workers > 0,
    ensures
        chunks.len() == workers,
        forall|i: int|
            0 <= i < workers ==> (#[trigger] chunks[i]) == (
                chunk_start(size as nat, workers as nat, i as nat) as usize,
                chunk_end(size as nat, workers as nat, i as nat) as usize,
            ),
        forall|i: int| 0 <= i < workers ==> (#[trigger] chunks[i]).0 <= chunks[i].1 <= size,
{
    let mut chunks: Vec<(usize, usize)> = Vec::new();
    for i in 0..workers
        invariant
            workers > 0,
            chunks.len() == i,
            forall|j: int|
                0 <= j < i ==> (#[trigger] chunks[j]) == (
                    chunk_start(size as nat, workers as nat, j as nat) as usize,
                    chunk_end(size as nat, workers as nat, j as nat) as usize,
                ),
            forall|j: int| 0 <= j < i ==> (#[trigger] chunks[j]).0 <= chunks[j].1 <= size,
    {
        let range = chunk_range(size, workers, i);
        chunks.push(range);
    }
    chunks
}

/// The chunks lie one after the other from 0 to `size`: each starts where
/// the one before ends, and all but the last hold `size / workers` indices.
pub proof fn lemma_chunks_contiguous(size: nat, workers: nat, i: nat)
    requires
        workers > 0,
        i < workers,
    ensures
        chunk_start(size, workers, 0) == 0,
        chunk_end(size, workers, (workers - 1) as nat) == size,
        chunk_start(size, workers, i) <= chunk_end(size, workers, i) <= size,
        i + 1 < workers ==> chunk_end(size, workers, i) == chunk_start(size, workers, i + 1),
        i + 1 < workers ==> chunk_end(size, workers, i) - chunk_start(size, workers, i) == size
            / workers,
        i + 1 == workers ==> chunk_end(size, workers, i) - chunk_start(size, workers, i) == size
            / workers + size % workers,
{
    let chunk = chunk_size(size, workers);
    vstd::arithmetic::div_mod::lemma_fundamental_div_mod(size as int, workers as int);
    assert(workers * chunk + size % workers == size);
    assert(i * chunk <= (i + 1) * chunk <= workers * chunk) by (nonlinear_arith)
        requires
            i < workers,
            0 <= chunk,
    ;
    assert((i + 1) * chunk - i * chunk == chunk) by (nonlinear_arith);
    if i + 1 == workers {
        assert(size - i * chunk == chunk + size % workers) by (nonlinear_arith)
            requires
                i + 1 == workers,
                workers * chunk + size % workers == size,
        ;
    }
}

/// Every index below `size` falls to exactly one worker.
pub proof fn lemma_partition_exact(size: nat, workers: nat, idx: nat)
    requires
        workers > 0,
        idx < size,
    ensures
        owner(size, workers, idx) < workers,
        in_chunk(size, workers, owner(size, workers, idx), idx),
        forall|i: nat|
            i < workers && in_chunk(size, workers, i, idx) ==> i == owner(size, workers, idx),
{
    let chunk = chunk_size(size, workers);
    let o = owner(size, workers, idx);
    lemma_chunks_contiguous(size, workers, o);
    if chunk == 0 || idx / chunk >= workers {
        if chunk != 0 {
            vstd::arithmetic::div_mod::lemma_fundamental_div_mod(idx as int, chunk as int);
            assert((workers - 1) * chunk <= idx) by (nonlinear_arith)
                requires
                    idx == chunk * (idx / chunk) + idx % chunk,
                    0 <= idx % chunk,
                    idx / chunk >= workers,
                    0 < chunk,
            ;
        } else {
            assert((workers - 1) * chunk == 0) by (nonlinear_arith)
                requires
                    chunk == 0,
            ;
        }
    } else {
        let q = idx / chunk;
        vstd::arithmetic::div_mod::lemma_fundamental_div_mod(idx as int, chunk as int);
        vstd::arithmetic::div_mod::lemma_mod_pos_bound(idx as int, chunk as int);
        assert(q * chunk <= idx < (q + 1) * chunk) by (nonlinear_arith)
            requires
                idx == chunk * q + idx % chunk,
                0 <= idx % chunk < chunk,
        ;
    }
    assert forall|i: nat| i < workers && in_chunk(size, workers, i, idx) implies i == o by {
        lemma_chunks_contiguous(size, workers, i);
        if i < o {
            assert((i + 1) * chunk <= o * chunk) by (nonlinear_arith)
                requires
                    i < o,
                    0 <= chunk,
            ;
        } else if o < i {
            assert((o + 1) * chunk <= i * chunk) by (nonlinear_arith)
                requires
                    o < i,
                    0 <= chunk,
            ;
        }
    }
}

/// The first `k` chunks of a sequence of cells, one after the other, are
/// the cells before the end of the `k`-th chunk.
proof fn lemma_chunks_join_prefix(cells: Seq<u8>, workers: nat, k: nat)
    requires
        workers > 0,
        k <= workers,
    ensures
        chunks_of(cells, workers).take(k as int).flatten() == cells.take(
            if k == 0 {
                0
            } else {
                chunk_end(cells.len(), workers, (k - 1) as nat) as int
            },
        ),
    decreases k,
{
    let chunks = chunks_of(cells, workers);
    if k == 0 {
        assert(chunks.take(0) =~= Seq::<Seq<u8>>::empty());
        assert(chunks.take(0).flatten() =~= cells.take(0));
    } else {
        let i = (k - 1) as nat;
        lemma_chunks_join_prefix(cells, workers, i);
        lemma_chunks_contiguous(cells.len(), workers, i);
        if i > 0 {
            lemma_chunks_contiguous(cells.len(), workers, (i - 1) as nat);
        }
        assert(chunks.take(k as int) =~= chunks.take(i as int).push(chunks[i as int]));
        chunks.take(i as int).lemma_flatten_push(chunks[i as int]);
        assert(chunks.take(k as int).flatten() =~= cells.take(
            chunk_end(cells.len(), workers, i) as int,
        ));
    }
}

/// Splitting a sequence of cells into the chunks of the workers and laying
/// the chunks one after the other gives the sequence back: no cell is left
/// out and none comes twice.
pub proof fn lemma_chunks_join(cells: Seq<u8>, workers: nat)
    requires
        workers > 0,
    ensures
        chunks_of(cells, workers).flatten() == cells,
        chunks_of(cells, workers).len() == workers,
{
    let chunks = chunks_of(cells, workers);
    lemma_chunks_join_prefix(cells, workers, workers);
    lemma_chunks_contiguous(cells.len(), workers, (workers - 1) as nat);
    assert(chunks.take(workers as int) =~= chunks);
    assert(cells.take(cells.len() as int) =~= cells);
}

} // verus!
