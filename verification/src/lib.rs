//! Shuffles the delimiter-separated records of a byte buffer into a seeded,
//! reproducible order.
//!
//! A buffer is scanned — in parallel work ranges whose partition never changes
//! the outcome — for delimiter occurrences; the occurrences become an Offset
//! Set, the Offset Set a Chunk Index of byte intervals covering the buffer
//! exactly; a seed-keyed bijection picks the output order; and the emitter
//! joins the records with exactly one delimiter between consecutive output
//! positions. With the same seed, buffer and delimiter, the output bytes are
//! identical run after run; the multiset of records never depends on the seed.

use vstd::prelude::*;

pub mod delim;
pub mod emit;
pub mod index;
pub mod matcher;
pub mod perm;
pub mod scanner;

pub use delim::parse_delimiter;
pub use emit::emit_chunks;
pub use index::build_chunk_index;
pub use matcher::matches_at;
pub use perm::materialized_permutation;
pub use perm::KeyedPermutation;
pub use perm::ShuffleError;
pub use scanner::count_chunks_parallel;
pub use scanner::scan_offsets;

use crate::emit::emit_rest;
use crate::emit::emit_spec;
use crate::emit::lemma_permuted_records_multiset;
use crate::emit::permuted_records;
use crate::emit::records_of;
use crate::index::chunk_index_spec;
use crate::index::lemma_chunks_wf;
use crate::index::offsets_to_chunks;
use crate::perm::effective_seed;
use crate::perm::seed_to_u32;
use crate::scanner::lemma_offsets_spec_wf;
use crate::scanner::offsets_spec;
use vstd::arithmetic::div_mod::lemma_mod_bound;

verus! {

/// The record sequence a run with this seed emits, in output order.
pub open spec fn permuted_record_seq(data: Seq<u8>, delim: Seq<u8>, seed: u64) -> Seq<Seq<u8>> {
    let chunks = chunk_index_spec(data, delim);
    permuted_records(
        records_of(data, chunks),
        effective_seed(seed_to_u32(seed), chunks.len() as u32),
    )
}

/// The bytes a run with this seed emits: a function of buffer, delimiter and
/// seed alone, so equal inputs emit identical bytes, run after run.
pub open spec fn shuffle_spec(data: Seq<u8>, delim: Seq<u8>, seed: u64) -> Seq<u8> {
    emit_spec(permuted_record_seq(data, delim, seed), delim)
}

/// The multiset of emitted records does not depend on the seed: two runs over
/// the same buffer and delimiter emit the same records, only their order may
/// differ.
pub proof fn lemma_record_multiset_seed_independent(
    data: Seq<u8>,
    delim: Seq<u8>,
    s1: u64,
    s2: u64,
)
    requires
        data.len() <= usize::MAX,
        chunk_index_spec(data, delim).len() <= u32::MAX,
    ensures
        permuted_record_seq(data, delim, s1).to_multiset() == permuted_record_seq(
            data,
            delim,
            s2,
        ).to_multiset(),
{
    lemma_offsets_spec_wf(data, delim);
    let chunks = chunk_index_spec(data, delim);
    let n = chunks.len() as u32;
    let recs = records_of(data, chunks);
    lemma_mod_bound(seed_to_u32(s1) as int, 0x1_0000_0000 - (n - 1));
    lemma_mod_bound(seed_to_u32(s2) as int, 0x1_0000_0000 - (n - 1));
    lemma_permuted_records_multiset(recs, effective_seed(seed_to_u32(s1), n));
    lemma_permuted_records_multiset(recs, effective_seed(seed_to_u32(s2), n));
}

/// Fixing the seed fixes the run: the emitted bytes are one value for given
/// buffer, delimiter and seed, whatever run computes them.
pub proof fn lemma_seeded_run_reproducible(
    data: Seq<u8>,
    delim: Seq<u8>,
    seed: u64,
    out1: Seq<u8>,
    out2: Seq<u8>,
)
    requires
        out1 == shuffle_spec(data, delim, seed),
        out2 == shuffle_spec(data, delim, seed),
    ensures
        out1 == out2,
{
}

/// A delimiter the buffer cannot contain — empty, or longer than the buffer —
/// makes the whole buffer one record, and the run emits it unchanged.
pub proof fn lemma_trivial_split_single_record(data: Seq<u8>, delim: Seq<u8>, seed: u64)
    requires
        delim.len() == 0 || data.len() < delim.len(),
        data.len() <= usize::MAX,
    ensures
        chunk_index_spec(data, delim) == seq![(0usize, data.len() as usize)],
        shuffle_spec(data, delim, seed) == data,
{
    let len = data.len() as usize;
    assert(offsets_spec(data, delim) == seq![0usize]);
    let chunks = chunk_index_spec(data, delim);
    assert(chunks =~= seq![(0usize, len)]);
    let recs = records_of(data, chunks);
    assert(recs[0] == data.subrange(0, len as int));
    assert(recs[0] =~= data);
    let eff = effective_seed(seed_to_u32(seed), 1);
    lemma_mod_bound(seed_to_u32(seed) as int, 0x1_0000_0000);
    lemma_mod_bound(0 + eff, 1);
    let precs = permuted_record_seq(data, delim, seed);
    assert(precs =~= seq![data]);
    let e0 = Seq::<u8>::empty();
    assert(e0 + data =~= data);
    assert(precs.drop_first() =~= Seq::<Seq<u8>>::empty());
    assert(emit_rest(data, Seq::<Seq<u8>>::empty(), delim) == data);
    assert(emit_rest(e0, precs, delim) == emit_rest(data, precs.drop_first(), delim));
}

/// An empty buffer emits no bytes, whatever the delimiter and the seed.
pub proof fn lemma_empty_input_empty_output(delim: Seq<u8>, seed: u64)
    ensures
        shuffle_spec(Seq::empty(), delim, seed) == Seq::<u8>::empty(),
{
    let data = Seq::<u8>::empty();
    if delim.len() == 0 || data.len() < delim.len() {
        lemma_trivial_split_single_record(data, delim, seed);
        assert(shuffle_spec(data, delim, seed) =~= Seq::<u8>::empty());
    }
}

/// Shuffles the records of `data` under `delim` with an explicit seed.
/// `range_size` bounds one parallel work range; it never changes the output.
/// The one failure is a buffer with more records than the engine's 32-bit
/// domain.
pub fn shuffle_with_seed(data: &[u8], delim: &[u8], seed: u64, range_size: usize) -> (r: Result<
    Vec<u8>,
    ShuffleError,
>)
    requires
        range_size >= 1,
    ensures
        r is Err <==> offsets_spec(data@, delim@).len() > u32::MAX,
        r is Err ==> r == Err::<Vec<u8>, ShuffleError>(ShuffleError::TooManyChunks),
        r matches Ok(v) ==> v@ == shuffle_spec(data@, delim@, seed),
{
    let len = data.len();
    let offs = scan_offsets(data, delim, range_size);
    proof {
        assert(data@.len() == len);
        lemma_offsets_spec_wf(data@, delim@);
    }
    let n = offs.len();
    if n > (u32::MAX as usize) {
        return Err(ShuffleError::TooManyChunks);
    }
    let chunks = offsets_to_chunks(&offs, len, delim.len());
    proof {
        lemma_chunks_wf(data@, delim@, offs@, len);
    }
    let engine = match KeyedPermutation::new(seed, n as u32) {
        Ok(p) => p,
        Err(_) => {
            proof {
                assert(false);
            }
            return Err(ShuffleError::TooManyChunks);
        },
    };
    let out = emit_chunks(data, delim, &chunks, &engine);
    Ok(out)
}

/// Relies on `rand::random`: one seed drawn from the thread-local generator;
/// nothing is assumed of the value.
#[verifier::external_body]
fn draw_seed() -> u64 {
    rand::random()
}

/// Shuffles with the supplied seed, or, when none is given, with one drawn
/// once from the process's random source and used for the whole run — the
/// order is then some seed's order, just not a requested one.
pub fn shuffle(data: &[u8], delim: &[u8], seed: Option<u64>, range_size: usize) -> (r: Result<
    Vec<u8>,
    ShuffleError,
>)
    requires
        range_size >= 1,
    ensures
        r is Err <==> offsets_spec(data@, delim@).len() > u32::MAX,
        r is Err ==> r == Err::<Vec<u8>, ShuffleError>(ShuffleError::TooManyChunks),
        seed matches Some(s) ==> (r matches Ok(v) ==> v@ == shuffle_spec(data@, delim@, s)),
        seed is None ==> (r matches Ok(v) ==> exists|s: u64|
            v@ == #[trigger] shuffle_spec(data@, delim@, s)),
{
    let s = match seed {
        Some(s) => s,
        None => draw_seed(),
    };
    shuffle_with_seed(data, delim, s, range_size)
}

} // verus!
