//! The Chunk Index: an ordered list of half-open byte intervals, one per
//! record, derived from the Offset Set.
//!
//! A record runs from its start offset to the next offset minus the delimiter
//! (the delimiter bytes belong to no record); the last record runs to the end
//! of the buffer. An interval may be empty when two delimiters are adjacent.
//! Joining the intervals' bytes in index order, with one delimiter between
//! consecutive intervals, reproduces the buffer exactly.

use vstd::prelude::*;

use crate::matcher::is_match;
use crate::scanner::lemma_offsets_spec_wf;
use crate::scanner::offsets_spec;
use crate::scanner::scan_offsets;
use crate::scanner::wf_offsets;
use crate::scanner::DEFAULT_RANGE_SIZE;

verus! {

/// The intervals derived from an Offset Set: record `i` runs from `offs[i]` to
/// `offs[i + 1] - dlen`, and the last record to the end of the buffer.
pub open spec fn chunks_of_offsets(offs: Seq<usize>, len: usize, dlen: nat) -> Seq<(usize, usize)> {
    Seq::new(
        offs.len(),
        |i: int|
            if i + 1 < offs.len() {
                (offs[i], (offs[i + 1] - dlen) as usize)
            } else {
                (offs[i], len)
            },
    )
}

/// The Chunk Index of a buffer and delimiter.
pub open spec fn chunk_index_spec(data: Seq<u8>, delim: Seq<u8>) -> Seq<(usize, usize)> {
    chunks_of_offsets(offsets_spec(data, delim), data.len() as usize, delim.len())
}

/// Intervals of a well-formed Offset Set are ordered and in bounds: each start
/// is at most its end, each end at most the next start, and the first interval
/// starts at 0.
pub proof fn lemma_chunks_wf(data: Seq<u8>, delim: Seq<u8>, offs: Seq<usize>, len: usize)
    requires
        wf_offsets(data, delim, offs),
        data.len() == len,
    ensures
        chunks_of_offsets(offs, len, delim.len()).len() == offs.len(),
        forall|i: int|
            0 <= i < offs.len() ==> {
                let c = #[trigger] chunks_of_offsets(offs, len, delim.len())[i];
                c.0 <= c.1 <= len
            },
{
    let chunks = chunks_of_offsets(offs, len, delim.len());
    assert forall|i: int| 0 <= i < offs.len() implies {
        let c = #[trigger] chunks[i];
        c.0 <= c.1 <= len
    } by {
        if i + 1 < offs.len() {
            assert(offs[i] + delim.len() <= offs[i + 1]);
            assert(offs[i + 1] <= data.len());
        } else {
            if i >= 1 {
                assert(offs[i] <= data.len());
            }
        }
    }
}

/// The bytes of the intervals, joined in index order with one delimiter
/// between consecutive intervals.
pub open spec fn join_records(data: Seq<u8>, delim: Seq<u8>, chunks: Seq<(usize, usize)>) -> Seq<
    u8,
>
    decreases chunks.len(),
{
    if chunks.len() == 0 {
        Seq::empty()
    } else {
        let rec = data.subrange(chunks[0].0 as int, chunks[0].1 as int);
        if chunks.len() == 1 {
            rec
        } else {
            rec + delim + join_records(data, delim, chunks.drop_first())
        }
    }
}

proof fn lemma_join_suffix(data: Seq<u8>, delim: Seq<u8>, offs: Seq<usize>, len: usize, i: int)
    requires
        wf_offsets(data, delim, offs),
        data.len() == len,
        0 <= i < offs.len(),
    ensures
        join_records(data, delim, chunks_of_offsets(offs, len, delim.len()).skip(i))
            == data.subrange(offs[i] as int, len as int),
    decreases offs.len() - i,
{
    let chunks = chunks_of_offsets(offs, len, delim.len());
    let rest = chunks.skip(i);
    assert(rest[0] == chunks[i]);
    if i == offs.len() - 1 {
        assert(rest.len() == 1);
        assert(join_records(data, delim, rest) == data.subrange(offs[i] as int, len as int));
    } else {
        lemma_join_suffix(data, delim, offs, len, i + 1);
        assert(rest.drop_first() =~= chunks.skip(i + 1));
        let dlen = delim.len();
        let rec = data.subrange(offs[i] as int, offs[i + 1] - dlen);
        assert(offs[i] + dlen <= offs[i + 1] && offs[i + 1] <= len && is_match(
            data,
            delim,
            offs[i + 1] - dlen,
        ));
        assert(data.subrange(offs[i + 1] - dlen, offs[i + 1] as int) == delim);
        assert(join_records(data, delim, rest) == rec + delim + data.subrange(
            offs[i + 1] as int,
            len as int,
        ));
        assert(rec + delim + data.subrange(offs[i + 1] as int, len as int) =~= data.subrange(
            offs[i] as int,
            len as int,
        ));
    }
}

/// The round-trip law: joining the Chunk Index's intervals' bytes in index
/// order, with the delimiter re-inserted between consecutive intervals,
/// reproduces the buffer exactly. The Chunk Index never depends on how the
/// scan was partitioned, so neither does this.
pub proof fn lemma_chunk_index_round_trip(data: Seq<u8>, delim: Seq<u8>)
    requires
        data.len() <= usize::MAX,
    ensures
        join_records(data, delim, chunk_index_spec(data, delim)) == data,
{
    lemma_offsets_spec_wf(data, delim);
    let offs = offsets_spec(data, delim);
    let len = data.len() as usize;
    lemma_join_suffix(data, delim, offs, len, 0);
    let chunks = chunk_index_spec(data, delim);
    assert(chunks.skip(0) =~= chunks);
    assert(data.subrange(0, len as int) =~= data);
}

/// Turns a well-formed Offset Set into the Chunk Index.
pub fn offsets_to_chunks(offs: &Vec<usize>, len: usize, dlen: usize) -> (r: Vec<(usize, usize)>)
    requires
        offs@.len() >= 1,
        forall|i: int|
            1 <= i < offs@.len() ==> offs@[i - 1] + dlen <= #[trigger] offs@[i] && offs@[i] <= len,
        offs@[0] == 0,
    ensures
        r@ == chunks_of_offsets(offs@, len, dlen as nat),
{
    let n = offs.len();
    let mut r: Vec<(usize, usize)> = Vec::new();
    let mut i: usize = 0;
    while i < n
        invariant
            i <= n,
            n == offs@.len() >= 1,
            forall|t: int|
                1 <= t < offs@.len() ==> offs@[t - 1] + dlen <= #[trigger] offs@[t] && offs@[t]
                    <= len,
            offs@[0] == 0,
            r@ == chunks_of_offsets(offs@, len, dlen as nat).take(i as int),
        decreases n - i,
    {
        let end = if i + 1 < n {
            offs[i + 1] - dlen
        } else {
            len
        };
        r.push((offs[i], end));
        proof {
            assert(r@ =~= chunks_of_offsets(offs@, len, dlen as nat).take(i + 1));
        }
        i += 1;
    }
    proof {
        assert(chunks_of_offsets(offs@, len, dlen as nat).take(n as int) =~= chunks_of_offsets(
            offs@,
            len,
            dlen as nat,
        ));
    }
    r
}

/// Builds the Chunk Index of `data` under `delim`: one interval per record, in
/// buffer order, covering the buffer exactly once with the delimiter bytes
/// between them.
pub fn build_chunk_index(data: &[u8], delim: &[u8]) -> (r: Vec<(usize, usize)>)
    ensures
        r@ == chunk_index_spec(data@, delim@),
{
    let len = data.len();
    let offs = scan_offsets(data, delim, DEFAULT_RANGE_SIZE);
    proof {
        assert(data@.len() == len);
        lemma_offsets_spec_wf(data@, delim@);
    }
    offsets_to_chunks(&offs, len, delim.len())
}

} // verus!
