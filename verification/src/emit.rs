//! The Chunk Emitter: walks output positions in order, resolves each to a
//! source chunk through the Keyed Permutation Engine, and writes that record's
//! bytes, re-inserting one delimiter between consecutive output positions.
//!
//! A delimiter is appended after every output position but the last, unless
//! the stream already ends with one — so however many delimiter bytes sat at a
//! boundary in the input, and however empty records land in the order, no two
//! delimiters ever become adjacent in the output.

use vstd::arithmetic::div_mod::lemma_fundamental_div_mod;
use vstd::arithmetic::div_mod::lemma_mod_bound;
use vstd::arithmetic::div_mod::lemma_mod_multiples_vanish;
use vstd::arithmetic::div_mod::lemma_small_mod;
use vstd::prelude::*;
use vstd::seq_lib::lemma_multiset_commutative;

use crate::perm::KeyedPermutation;

verus! {

/// The records a chunk list carves out of the buffer, in list order.
pub open spec fn records_of(data: Seq<u8>, chunks: Seq<(usize, usize)>) -> Seq<Seq<u8>> {
    Seq::new(chunks.len(), |j: int| data.subrange(chunks[j].0 as int, chunks[j].1 as int))
}

/// The records reordered by the engine's bijection: output position `k` shows
/// record `(k + eff) % n`.
pub open spec fn permuted_records(recs: Seq<Seq<u8>>, eff: int) -> Seq<Seq<u8>> {
    if recs.len() == 0 {
        recs
    } else {
        Seq::new(recs.len(), |k: int| recs[(k + eff) % recs.len() as int])
    }
}

/// Reordering by the engine's bijection keeps the records' multiset: order
/// changes with the seed, membership and multiplicity never do.
pub proof fn lemma_permuted_records_multiset(recs: Seq<Seq<u8>>, eff: int)
    requires
        eff >= 0,
    ensures
        permuted_records(recs, eff).to_multiset() == recs.to_multiset(),
{
    if recs.len() > 0 {
        let n = recs.len() as int;
        let r0 = eff % n;
        lemma_mod_bound(eff, n);
        lemma_fundamental_div_mod(eff, n);
        let q = eff / n;
        assert forall|k: int| 0 <= k < n implies permuted_records(recs, eff)[k] == (recs.skip(r0)
            + recs.take(r0))[k] by {
            lemma_mod_multiples_vanish(q, k + r0, n);
            if k < n - r0 {
                lemma_small_mod((k + r0) as nat, n as nat);
            } else {
                lemma_mod_multiples_vanish(1, k + r0 - n, n);
                lemma_small_mod((k + r0 - n) as nat, n as nat);
            }
        }
        assert(permuted_records(recs, eff) =~= recs.skip(r0) + recs.take(r0));
        assert(recs =~= recs.take(r0) + recs.skip(r0));
        lemma_multiset_commutative(recs.take(r0), recs.skip(r0));
        lemma_multiset_commutative(recs.skip(r0), recs.take(r0));
        assert(recs.take(r0).to_multiset().add(recs.skip(r0).to_multiset()) =~= recs.skip(
            r0,
        ).to_multiset().add(recs.take(r0).to_multiset()));
    }
}

/// The stream's tail equals the delimiter.
pub open spec fn stream_ends_with(s: Seq<u8>, delim: Seq<u8>) -> bool {
    s.len() >= delim.len() && s.subrange(s.len() - delim.len(), s.len() as int) == delim
}

/// What the emitter appends for the remaining records, given the stream so
/// far: the next record's bytes, then — before every record but the last — one
/// delimiter, unless the stream already ends with one.
pub open spec fn emit_rest(out: Seq<u8>, recs: Seq<Seq<u8>>, delim: Seq<u8>) -> Seq<u8>
    decreases recs.len(),
{
    if recs.len() == 0 {
        out
    } else {
        let with_rec = out + recs[0];
        let with_sep = if recs.len() > 1 && !stream_ends_with(with_rec, delim) {
            with_rec + delim
        } else {
            with_rec
        };
        emit_rest(with_sep, recs.drop_first(), delim)
    }
}

/// The whole emitted stream for a record order.
pub open spec fn emit_spec(recs: Seq<Seq<u8>>, delim: Seq<u8>) -> Seq<u8> {
    emit_rest(Seq::empty(), recs, delim)
}

fn append_range(out: &mut Vec<u8>, data: &[u8], s: usize, e: usize)
    requires
        s <= e <= data@.len(),
    ensures
        final (out)@ == old(out)@ + data@.subrange(s as int, e as int),
{
    let ghost out0 = out@;
    let mut t = s;
    while t < e
        invariant
            s <= t <= e <= data@.len(),
            out@ == out0 + data@.subrange(s as int, t as int),
        decreases e - t,
    {
        out.push(data[t]);
        proof {
            assert(out0 + data@.subrange(s as int, t + 1) =~= (out0 + data@.subrange(
                s as int,
                t as int,
            )) + seq![data@[t as int]]);
        }
        t += 1;
    }
    proof {
        assert(out@ =~= out0 + data@.subrange(s as int, e as int));
    }
}

fn stream_ends_with_exec(out: &Vec<u8>, delim: &[u8]) -> (r: bool)
    ensures
        r == stream_ends_with(out@, delim@),
{
    let dlen = delim.len();
    if out.len() < dlen {
        return false;
    }
    let olen = out.len();
    let base = olen - dlen;
    let mut j: usize = 0;
    while j < dlen
        invariant
            j <= dlen,
            dlen == delim@.len() <= out@.len(),
            olen == out@.len(),
            base + dlen == olen,
            forall|t: int| 0 <= t < j ==> out@[base + t] == delim@[t],
        decreases dlen - j,
    {
        if out[base + j] != delim[j] {
            proof {
                assert(out@.subrange(out@.len() - delim@.len(), out@.len() as int)[j as int]
                    != delim@[j as int]);
            }
            return false;
        }
        j += 1;
    }
    proof {
        assert(out@.subrange(out@.len() - delim@.len(), out@.len() as int) =~= delim@);
    }
    true
}

/// Emits every record once, in the order the engine dictates, with one
/// delimiter between consecutive output positions.
pub fn emit_chunks(
    data: &[u8],
    delim: &[u8],
    chunks: &Vec<(usize, usize)>,
    perm: &KeyedPermutation,
) -> (r: Vec<u8>)
    requires
        perm.inv(),
        chunks@.len() == perm.spec_length(),
        forall|j: int|
            0 <= j < chunks@.len() ==> (#[trigger] chunks@[j]).0 <= chunks@[j].1 <= data@.len(),
    ensures
        r@ == emit_spec(permuted_records(records_of(data@, chunks@), perm.spec_eff()), delim@),
{
    let ghost precs = permuted_records(records_of(data@, chunks@), perm.spec_eff());
    let n = chunks.len();
    let mut out: Vec<u8> = Vec::new();
    let mut k: usize = 0;
    proof {
        assert(precs.skip(0) =~= precs);
    }
    while k < n
        invariant
            k <= n,
            n == chunks@.len(),
            n == perm.spec_length(),
            perm.inv(),
            precs == permuted_records(records_of(data@, chunks@), perm.spec_eff()),
            forall|j: int|
                0 <= j < chunks@.len() ==> (#[trigger] chunks@[j]).0 <= chunks@[j].1
                    <= data@.len(),
            emit_spec(precs, delim@) == emit_rest(out@, precs.skip(k as int), delim@),
        decreases n - k,
    {
        let j = perm.pi(k as u32) as usize;
        let (s, e) = chunks[j];
        let ghost out0 = out@;
        append_range(&mut out, data, s, e);
        proof {
            assert(precs[k as int] == records_of(data@, chunks@)[j as int]);
            assert(out@ == out0 + precs[k as int]);
            assert(precs.skip(k as int)[0] == precs[k as int]);
            assert(precs.skip(k as int).drop_first() =~= precs.skip(k as int + 1));
        }
        if k + 1 < n {
            let sep = stream_ends_with_exec(&out, delim);
            if !sep {
                let ghost out1 = out@;
                append_range(&mut out, delim, 0, delim.len());
                proof {
                    assert(delim@.subrange(0, delim@.len() as int) =~= delim@);
                    assert(out@ == out1 + delim@);
                }
            }
        }
        k += 1;
    }
    proof {
        assert(precs.skip(n as int) =~= Seq::<Seq<u8>>::empty());
    }
    out
}

} // verus!
