//! Parallel occurrence scanning: find every delimiter occurrence, then reduce
//! the occurrence list to non-overlapping matches and record-start offsets.
//!
//! The buffer's testable positions are split into contiguous work ranges; each
//! range is scanned independently (a range's byte reads may run past its end by
//! `delim.len() - 1` bytes, so occurrences that straddle a range boundary are
//! still seen whole by the range that owns their first byte). The per-range
//! lists are merged into one globally sorted occurrence list, which makes the
//! result independent of how the buffer was partitioned. A final sequential
//! pass applies the non-overlapping-match policy: after a match at `p`,
//! scanning resumes at `p + delim.len()`.

use rayon::iter::IntoParallelRefIterator;
use rayon::iter::ParallelIterator;
use vstd::prelude::*;

use crate::matcher::is_match;
use crate::matcher::matches_at;

verus! {

/// All positions `p` with `lo <= p < hi` where the delimiter occurs in `data`,
/// in increasing order, overlapping occurrences included.
pub open spec fn match_positions(data: Seq<u8>, delim: Seq<u8>, lo: int, hi: int) -> Seq<usize>
    decreases hi - lo,
{
    if lo < 0 || lo >= hi {
        Seq::empty()
    } else {
        let rest = match_positions(data, delim, lo + 1, hi);
        if is_match(data, delim, lo) {
            seq![lo as usize] + rest
        } else {
            rest
        }
    }
}

/// Occurrence lists over adjacent ranges concatenate: scanning `[a, c)` finds
/// what scanning `[a, b)` and `[b, c)` find, in order.
pub proof fn lemma_match_positions_concat(data: Seq<u8>, delim: Seq<u8>, a: int, b: int, c: int)
    requires
        0 <= a <= b <= c,
    ensures
        match_positions(data, delim, a, c) == match_positions(data, delim, a, b)
            + match_positions(data, delim, b, c),
    decreases b - a,
{
    if a == b {
        assert(match_positions(data, delim, a, b) == Seq::<usize>::empty());
        assert(match_positions(data, delim, a, c) =~= match_positions(data, delim, a, b)
            + match_positions(data, delim, b, c));
    } else {
        lemma_match_positions_concat(data, delim, a + 1, b, c);
        assert(match_positions(data, delim, a, c) =~= match_positions(data, delim, a, b)
            + match_positions(data, delim, b, c));
    }
}

/// Every listed position lies in `[lo, hi)` and carries a real occurrence.
pub proof fn lemma_match_positions_props(data: Seq<u8>, delim: Seq<u8>, lo: int, hi: int)
    requires
        0 <= lo,
        hi <= usize::MAX as int + 1,
    ensures
        forall|t: int|
            0 <= t < match_positions(data, delim, lo, hi).len() ==> {
                let p = #[trigger] match_positions(data, delim, lo, hi)[t];
                lo <= p < hi && is_match(data, delim, p as int)
            },
    decreases hi - lo,
{
    if lo < hi {
        lemma_match_positions_props(data, delim, lo + 1, hi);
        let m = match_positions(data, delim, lo, hi);
        let rest = match_positions(data, delim, lo + 1, hi);
        assert forall|t: int| 0 <= t < m.len() implies {
            let p = #[trigger] m[t];
            lo <= p < hi && is_match(data, delim, p as int)
        } by {
            if is_match(data, delim, lo) {
                if t == 0 {
                    assert(m[t] == lo as usize);
                } else {
                    assert(m[t] == rest[t - 1]);
                }
            } else {
                assert(m[t] == rest[t]);
            }
        }
    }
}

/// Collects every occurrence position in `[lo, hi)`, one range's share of the
/// scan.
pub fn collect_matches(data: &[u8], delim: &[u8], lo: usize, hi: usize) -> (r: Vec<usize>)
    requires
        lo <= hi,
        hi + delim@.len() <= data@.len() + 1,
    ensures
        r@ == match_positions(data@, delim@, lo as int, hi as int),
{
    let mut r: Vec<usize> = Vec::new();
    let mut p = lo;
    while p < hi
        invariant
            lo <= p <= hi,
            hi + delim@.len() <= data@.len() + 1,
            r@ == match_positions(data@, delim@, lo as int, p as int),
        decreases hi - p,
    {
        let hit = matches_at(data, delim, p);
        if hit {
            r.push(p);
        }
        proof {
            lemma_match_positions_concat(data@, delim@, lo as int, p as int, p + 1);
            assert(match_positions(data@, delim@, p + 1, p + 1) =~= Seq::<usize>::empty());
            if is_match(data@, delim@, p as int) {
                assert(match_positions(data@, delim@, p as int, p + 1) =~= seq![p]);
            } else {
                assert(match_positions(data@, delim@, p as int, p + 1) =~= Seq::<usize>::empty());
            }
            assert(r@ =~= match_positions(data@, delim@, lo as int, p + 1));
        }
        p += 1;
    }
    r
}

/// Relies on rayon's `par_iter().map(..).collect::<Vec<_>>()`: the closure is
/// applied to every element and the results are collected in the input's
/// order. Each element's value comes from the verified `collect_matches`.
#[verifier::external_body]
fn scan_ranges_parallel(data: &[u8], delim: &[u8], ranges: &Vec<(usize, usize)>) -> (r: Vec<
    Vec<usize>,
>)
    requires
        forall|k: int|
            0 <= k < ranges@.len() ==> ranges@[k].0 <= ranges@[k].1 && ranges@[k].1 + delim@.len()
                <= data@.len() + 1,
    ensures
        r@.len() == ranges@.len(),
        forall|k: int|
            0 <= k < ranges@.len() ==> (#[trigger] r@[k])@ == match_positions(
                data@,
                delim@,
                ranges@[k].0 as int,
                ranges@[k].1 as int,
            ),
{
    ranges.par_iter().map(|&(lo, hi)| collect_matches(data, delim, lo, hi)).collect()
}

/// Greedy non-overlapping selection from an occurrence list: an occurrence is
/// taken only if it starts at or after `min_next`, and taking one at `m` moves
/// `min_next` to `m + dlen`, so scanning resumes past the matched bytes.
pub open spec fn select_from(ms: Seq<usize>, min_next: int, dlen: nat) -> Seq<usize>
    decreases ms.len(),
{
    if ms.len() == 0 {
        Seq::empty()
    } else if ms[0] < min_next {
        select_from(ms.drop_first(), min_next, dlen)
    } else {
        seq![ms[0]] + select_from(ms.drop_first(), ms[0] + dlen as int, dlen)
    }
}

/// Every selected occurrence comes from the input list and respects the
/// resumption policy: it starts at or after `min_next`, and consecutive
/// selections are at least `dlen` apart.
pub proof fn lemma_select_from_props(ms: Seq<usize>, min_next: int, dlen: nat)
    ensures
        forall|t: int|
            0 <= t < select_from(ms, min_next, dlen).len() ==> ms.contains(
                #[trigger] select_from(ms, min_next, dlen)[t],
            ) && min_next <= select_from(ms, min_next, dlen)[t],
        forall|t: int|
            0 <= t < select_from(ms, min_next, dlen).len() - 1 ==> #[trigger] select_from(
                ms,
                min_next,
                dlen,
            )[t] + dlen <= select_from(ms, min_next, dlen)[t + 1],
    decreases ms.len(),
{
    if ms.len() > 0 {
        let s = select_from(ms, min_next, dlen);
        let tail = ms.drop_first();
        if ms[0] < min_next {
            lemma_select_from_props(tail, min_next, dlen);
            let r = select_from(tail, min_next, dlen);
            assert(s == r);
            assert forall|t: int| 0 <= t < s.len() implies ms.contains(#[trigger] s[t]) && min_next
                <= s[t] by {
                assert(tail.contains(r[t]));
                let w = choose|w: int| 0 <= w < tail.len() && tail[w] == r[t];
                assert(ms[w + 1] == s[t]);
            }
        } else {
            lemma_select_from_props(tail, ms[0] + dlen as int, dlen);
            let r = select_from(tail, ms[0] + dlen as int, dlen);
            assert(s == seq![ms[0]] + r);
            assert forall|t: int| 0 <= t < s.len() implies ms.contains(#[trigger] s[t]) && min_next
                <= s[t] by {
                if t == 0 {
                    assert(s[t] == ms[0]);
                } else {
                    assert(s[t] == r[t - 1]);
                    assert(tail.contains(r[t - 1]));
                    let w = choose|w: int| 0 <= w < tail.len() && tail[w] == r[t - 1];
                    assert(ms[w + 1] == s[t]);
                }
            }
            assert forall|t: int| 0 <= t < s.len() - 1 implies #[trigger] s[t] + dlen <= s[t
                + 1] by {
                if t == 0 {
                    assert(s[0] == ms[0] && s[1] == r[0]);
                } else {
                    assert(s[t] == r[t - 1] && s[t + 1] == r[t]);
                }
            }
        }
    }
}

/// The number of byte positions where a delimiter occurrence can start.
pub open spec fn scan_top(data: Seq<u8>, delim: Seq<u8>) -> int {
    data.len() - delim.len() + 1
}

/// The occurrences the sequential non-overlapping scan selects.
pub open spec fn selected_matches(data: Seq<u8>, delim: Seq<u8>) -> Seq<usize> {
    select_from(match_positions(data, delim, 0, scan_top(data, delim)), 0, delim.len())
}

/// The Offset Set: 0 unconditionally, then the record-start offset right after
/// each selected occurrence. An empty delimiter, or a buffer shorter than the
/// delimiter, makes the whole buffer one record.
pub open spec fn offsets_spec(data: Seq<u8>, delim: Seq<u8>) -> Seq<usize> {
    if delim.len() == 0 || data.len() < delim.len() {
        seq![0usize]
    } else {
        seq![0usize] + selected_matches(data, delim).map_values(
            |m: usize| (m + delim.len()) as usize,
        )
    }
}

/// A well-formed Offset Set over `data` and `delim`: it starts at 0, every
/// later offset sits right after a delimiter occurrence, consecutive offsets
/// are at least a delimiter apart, and none passes the end of the buffer.
pub open spec fn wf_offsets(data: Seq<u8>, delim: Seq<u8>, offs: Seq<usize>) -> bool {
    &&& offs.len() >= 1
    &&& offs[0] == 0
    &&& forall|i: int|
        1 <= i < offs.len() ==> {
            &&& offs[i - 1] + delim.len() <= #[trigger] offs[i]
            &&& offs[i] <= data.len()
            &&& is_match(data, delim, offs[i] - delim.len())
        }
}

/// The scanned Offset Set is well formed.
pub proof fn lemma_offsets_spec_wf(data: Seq<u8>, delim: Seq<u8>)
    requires
        data.len() <= usize::MAX,
    ensures
        wf_offsets(data, delim, offsets_spec(data, delim)),
{
    let offs = offsets_spec(data, delim);
    if delim.len() == 0 || data.len() < delim.len() {
        assert(offs.len() == 1);
    } else {
        let dlen = delim.len();
        let top = scan_top(data, delim);
        let all = match_positions(data, delim, 0, top);
        let sel = selected_matches(data, delim);
        lemma_match_positions_props(data, delim, 0, top);
        lemma_select_from_props(all, 0, dlen as nat);
        assert forall|i: int| 1 <= i < offs.len() implies {
            &&& offs[i - 1] + delim.len() <= #[trigger] offs[i]
            &&& offs[i] <= data.len()
            &&& is_match(data, delim, offs[i] - delim.len())
        } by {
            assert(offs[i] == (sel[i - 1] + dlen) as usize);
            assert(all.contains(sel[i - 1]));
            let w = choose|w: int| 0 <= w < all.len() && all[w] == sel[i - 1];
            assert(all[w] < top && is_match(data, delim, all[w] as int));
            if i >= 2 {
                assert(offs[i - 1] == (sel[i - 2] + dlen) as usize);
                assert(sel[i - 2] + dlen <= sel[i - 1]);
            }
        }
    }
}

/// Target size for one parallel work range.
pub const DEFAULT_RANGE_SIZE: usize = 1000000;

/// Scans the buffer and returns the Offset Set: 0, then the record-start
/// offset after every selected delimiter occurrence, in increasing order.
/// `range_size` shapes the parallel partition only: the result is the same
/// whatever its value, and whatever the worker count.
pub fn scan_offsets(data: &[u8], delim: &[u8], range_size: usize) -> (r: Vec<usize>)
    requires
        range_size >= 1,
    ensures
        r@ == offsets_spec(data@, delim@),
{
    let dlen = delim.len();
    if dlen == 0 || data.len() < dlen {
        let mut r: Vec<usize> = Vec::new();
        r.push(0);
        proof {
            assert(r@ =~= seq![0usize]);
        }
        return r;
    }
    let top = data.len() - dlen + 1;

    // Partition the testable positions [0, top) into contiguous work ranges.
    let mut ranges: Vec<(usize, usize)> = Vec::new();
    let mut lo: usize = 0;
    while lo < top
        invariant
            lo <= top,
            range_size >= 1,
            top + dlen == data@.len() + 1,
            dlen == delim@.len(),
            dlen >= 1,
            ranges@.len() == 0 ==> lo == 0,
            ranges@.len() > 0 ==> ranges@[0].0 == 0 && ranges@[ranges@.len() - 1].1 == lo,
            forall|k: int| 0 <= k < ranges@.len() ==> (#[trigger] ranges@[k]).0 <= ranges@[k].1
                <= top,
            forall|k: int| 0 <= k && k + 1 < ranges@.len() ==> (#[trigger] ranges@[k]).1 == ranges@[k
                + 1].0,
        decreases top - lo,
    {
        let hi = if top - lo > range_size {
            lo + range_size
        } else {
            top
        };
        let ghost old_ranges = ranges@;
        ranges.push((lo, hi));
        proof {
            assert(ranges@[ranges@.len() - 1] == (lo, hi));
            assert forall|k: int| 0 <= k && k + 1 < ranges@.len() implies (#[trigger] ranges@[k]).1
                == ranges@[k + 1].0 by {
                if k + 1 < ranges@.len() - 1 {
                    assert(ranges@[k] == old_ranges[k] && ranges@[k + 1] == old_ranges[k + 1]);
                } else {
                    assert(ranges@[k] == old_ranges[old_ranges.len() - 1]);
                }
            }
        }
        lo = hi;
    }

    // Scan the ranges concurrently, then merge the per-range occurrence lists.
    // They are consecutive and internally sorted, so their concatenation is the
    // globally sorted occurrence list, with nothing listed twice.
    let parts = scan_ranges_parallel(data, delim, &ranges);
    let mut occ: Vec<usize> = Vec::new();
    let mut k: usize = 0;
    while k < parts.len()
        invariant
            k <= parts@.len(),
            parts@.len() == ranges@.len(),
            top + dlen == data@.len() + 1,
            dlen == delim@.len(),
            dlen >= 1,
            ranges@.len() > 0 && ranges@[0].0 == 0 && ranges@[ranges@.len() - 1].1 == top,
            forall|j: int| 0 <= j < ranges@.len() ==> (#[trigger] ranges@[j]).0 <= ranges@[j].1
                <= top,
            forall|j: int| 0 <= j && j + 1 < ranges@.len() ==> (#[trigger] ranges@[j]).1 == ranges@[j
                + 1].0,
            forall|j: int|
                0 <= j < ranges@.len() ==> (#[trigger] parts@[j])@ == match_positions(
                    data@,
                    delim@,
                    ranges@[j].0 as int,
                    ranges@[j].1 as int,
                ),
            occ@ == match_positions(
                data@,
                delim@,
                0,
                if k == 0 {
                    0int
                } else {
                    ranges@[k - 1].1 as int
                },
            ),
        decreases parts@.len() - k,
    {
        let (rlo, rhi) = ranges[k];
        let part = &parts[k];
        let ghost occ0 = occ@;
        let mut j: usize = 0;
        while j < part.len()
            invariant
                j <= part@.len(),
                occ@ == occ0 + part@.take(j as int),
            decreases part@.len() - j,
        {
            let m = part[j];
            occ.push(m);
            proof {
                assert(occ0 + part@.take(j + 1) =~= (occ0 + part@.take(j as int)) + seq![m]);
            }
            j += 1;
        }
        proof {
            lemma_match_positions_concat(data@, delim@, 0, rlo as int, rhi as int);
            assert(part@.take(part@.len() as int) =~= part@);
        }
        k += 1;
    }
    proof {
        assert(occ@ == match_positions(data@, delim@, 0, top as int));
    }

    // Select non-overlapping occurrences greedily from the left; each selected
    // occurrence contributes the offset right after it, and offset 0 leads.
    let ghost all = occ@;
    proof {
        lemma_match_positions_props(data@, delim@, 0, top as int);
    }
    let buf_len = data.len();
    let mut offs: Vec<usize> = Vec::new();
    offs.push(0);
    let ghost mut sel: Seq<usize> = Seq::empty();
    let mut min_next: usize = 0;
    let mut t: usize = 0;
    proof {
        assert(all.skip(0) =~= all);
        assert(Seq::<usize>::empty() + select_from(all, 0, dlen as nat) =~= select_from(
            all,
            0,
            dlen as nat,
        ));
        assert(offs@ =~= seq![0usize] + sel.map_values(|m: usize| (m + dlen) as usize));
    }
    while t < occ.len()
        invariant
            t <= all.len(),
            occ@ == all,
            top + dlen == buf_len + 1,
            buf_len == data@.len(),
            dlen == delim@.len(),
            dlen >= 1,
            forall|u: int| 0 <= u < all.len() ==> #[trigger] all[u] < top,
            select_from(all, 0, dlen as nat) == sel + select_from(
                all.skip(t as int),
                min_next as int,
                dlen as nat,
            ),
            offs@ == seq![0usize] + sel.map_values(|m: usize| (m + dlen) as usize),
        decreases all.len() - t,
    {
        let m = occ[t];
        proof {
            assert(all[t as int] < top);
            assert(all.skip(t as int)[0] == all[t as int]);
            assert(all.skip(t as int).drop_first() =~= all.skip(t as int + 1));
        }
        if m >= min_next {
            let ghost sel0 = sel;
            offs.push(m + dlen);
            min_next = m + dlen;
            proof {
                sel = sel + seq![m];
                assert(sel0 + (seq![m] + select_from(
                    all.skip(t as int + 1),
                    min_next as int,
                    dlen as nat,
                )) =~= sel + select_from(all.skip(t as int + 1), min_next as int, dlen as nat));
                assert(offs@ =~= seq![0usize] + sel.map_values(|x: usize| (x + dlen) as usize));
            }
        }
        t += 1;
    }
    proof {
        assert(all.skip(all.len() as int) =~= Seq::<usize>::empty());
        assert(select_from(Seq::<usize>::empty(), min_next as int, dlen as nat)
            == Seq::<usize>::empty());
        assert(sel + Seq::<usize>::empty() =~= sel);
        assert(offs@ =~= offsets_spec(data@, delim@));
    }
    offs
}

/// Counts the records the scan finds: the size of the Offset Set.
pub fn count_chunks_parallel(data: &[u8], delim: &[u8]) -> (r: usize)
    ensures
        r == offsets_spec(data@, delim@).len(),
{
    let offs = scan_offsets(data, delim, DEFAULT_RANGE_SIZE);
    offs.len()
}

} // verus!
