//! Delimiter matching: does the delimiter occur at a given byte offset?

use vstd::prelude::*;

verus! {

/// The delimiter occurs in `data` starting at position `pos`: the delimiter
/// fits, and the bytes at `[pos, pos + delim.len())` equal it byte for byte.
/// A zero-length delimiter never matches.
pub open spec fn is_match(data: Seq<u8>, delim: Seq<u8>, pos: int) -> bool {
    &&& delim.len() >= 1
    &&& 0 <= pos
    &&& pos + delim.len() <= data.len()
    &&& data.subrange(pos, pos + delim.len() as int) == delim
}

/// Reports whether the delimiter occurs in `data` starting at `pos`.
pub fn matches_at(data: &[u8], delim: &[u8], pos: usize) -> (r: bool)
    ensures
        r == is_match(data@, delim@, pos as int),
{
    if delim.len() == 0 || pos > data.len() || delim.len() > data.len() - pos {
        proof {
            assert(!is_match(data@, delim@, pos as int));
        }
        return false;
    }
    let mut j: usize = 0;
    while j < delim.len()
        invariant
            pos + delim.len() <= data.len(),
            j <= delim.len(),
            forall|t: int| 0 <= t < j ==> data@[pos + t] == delim@[t],
        decreases delim.len() - j,
    {
        if data[pos + j] != delim[j] {
            proof {
                assert(data@.subrange(pos as int, pos + delim.len() as int)[j as int]
                    != delim@[j as int]);
            }
            return false;
        }
        j += 1;
    }
    proof {
        assert(data@.subrange(pos as int, pos + delim.len() as int) =~= delim@);
    }
    true
}

} // verus!
