//! The Keyed Permutation Engine: a seed and a chunk count define a bijection
//! over `[0, n)`, computable point by point in constant space, so output order
//! can be randomized without materializing an index array.
//!
//! The engine keys `hashed_permutation`'s shuffle. That shuffle first rejects
//! inputs at or above the length; for the rest it reduces to
//! `(input + seed) % length`, whose checked addition stays in `u32` only while
//! `input + seed` does. The engine therefore folds the caller's seed into
//! `[0, 2^32 - n]` first: every call is then panic-free, and the resulting map
//! is a bijection the library proves, not assumes.

use vstd::arithmetic::div_mod::lemma_fundamental_div_mod;
use vstd::arithmetic::div_mod::lemma_mod_bound;
use vstd::arithmetic::div_mod::lemma_mod_multiples_vanish;
use vstd::arithmetic::div_mod::lemma_small_mod;
use vstd::prelude::*;

verus! {

/// Why a permutation request was rejected.
#[derive(Debug, PartialEq, Eq, Structural)]
pub enum ShuffleError {
    /// A permutation over zero chunks was requested.
    ZeroChunks,
    /// The buffer holds more records than the engine's 32-bit domain.
    TooManyChunks,
}

/// The low 32 bits of a caller-supplied seed: the engine's key space.
pub open spec fn seed_to_u32(seed: u64) -> u32 {
    (seed & 0xFFFF_FFFF) as u32
}

/// The key folded into `[0, 2^32 - n]`, so that `k + effective_seed` stays in
/// `u32` for every `k < n`.
pub open spec fn effective_seed(seed32: u32, n: u32) -> int
    recommends
        n >= 1,
{
    (seed32 as int) % (0x1_0000_0000 - (n - 1))
}

/// The engine's bijection: output position `k` draws the source chunk
/// `(k + effective_seed) % n`.
pub open spec fn pi_spec(seed: u64, n: u32, k: u32) -> int
    recommends
        n >= 1,
{
    (k + effective_seed(seed_to_u32(seed), n)) % (n as int)
}

/// Relies on `hashed_permutation::HashedPermutation::shuffle`: it rejects only
/// `input >= length`, and for an in-range `input` its re-hash loop (entered
/// while the hashed value is at or above `length`) never runs, so it returns
/// `Ok((input + seed) % length)`. That addition is checked `u32` arithmetic,
/// so `input + seed` must fit.
#[verifier::external_body]
fn hp_shuffle_u32(seed: u32, length: u32, input: u32) -> (r: u32)
    requires
        1 <= length,
        input < length,
        input + seed <= u32::MAX,
    ensures
        r as int == (input + seed) % (length as int),
{
    let p = hashed_permutation::HashedPermutation {
        seed,
        length: std::num::NonZeroU32::new(length).unwrap(),
    };
    p.shuffle(input).unwrap()
}

/// A seed-keyed bijection over `[0, n)`.
pub struct KeyedPermutation {
    seed: u32,
    length: u32,
}

impl KeyedPermutation {
    /// The engine's chunk count.
    pub closed spec fn spec_length(&self) -> u32 {
        self.length
    }

    /// The engine's folded key.
    pub closed spec fn spec_eff(&self) -> int {
        self.seed as int
    }

    /// The engine is over a non-empty domain and its key admits no overflow.
    pub closed spec fn inv(&self) -> bool {
        self.length >= 1 && self.seed + self.length <= 0x1_0000_0000
    }

    /// Keys an engine over `[0, length)`. A zero length is the one invalid
    /// request and is rejected.
    pub fn new(seed: u64, length: u32) -> (r: Result<KeyedPermutation, ShuffleError>)
        ensures
            length == 0 <==> r is Err,
            r is Err ==> r == Err::<KeyedPermutation, ShuffleError>(ShuffleError::ZeroChunks),
            r matches Ok(p) ==> p.inv() && p.spec_length() == length && p.spec_eff()
                == effective_seed(seed_to_u32(seed), length),
    {
        if length == 0 {
            return Err(ShuffleError::ZeroChunks);
        }
        let seed32: u32 = (seed & 0xFFFF_FFFF) as u32;
        let modulus: u64 = 0x1_0000_0000u64 - ((length - 1) as u64);
        let eff: u64 = (seed32 as u64) % modulus;
        proof {
            lemma_mod_bound(seed32 as int, modulus as int);
        }
        Ok(KeyedPermutation { seed: eff as u32, length })
    }

    /// The source index that output position `k` draws.
    pub fn pi(&self, k: u32) -> (r: u32)
        requires
            self.inv(),
            k < self.spec_length(),
        ensures
            r as int == (k + self.spec_eff()) % (self.spec_length() as int),
            r < self.spec_length(),
    {
        proof {
            lemma_mod_bound(k + self.spec_eff(), self.spec_length() as int);
        }
        hp_shuffle_u32(self.seed, self.length, k)
    }
}

/// One step of the fallback strategy's key stream: a 64-bit linear
/// congruential step, wrapping on overflow.
#[verifier::opaque]
pub open spec fn key_stream_next(s: u64) -> u64 {
    u64::wrapping_add(u64::wrapping_mul(s, 6364136223846793005), 1442695040888963407)
}

fn key_stream_step(s: u64) -> (r: u64)
    ensures
        r == key_stream_next(s),
{
    proof {
        reveal(key_stream_next);
    }
    s.wrapping_mul(6364136223846793005).wrapping_add(1442695040888963407)
}

/// The key stream after `k` steps from the seed.
pub open spec fn key_stream_at(seed: u64, k: int) -> u64
    decreases k,
{
    if k <= 0 {
        seed
    } else {
        key_stream_next(key_stream_at(seed, k - 1))
    }
}

/// The fallback's table after shuffle steps `1..=k`: step `k` swaps position
/// `k` with the key-chosen position `key_stream_at(seed, k) % (k + 1)`.
pub open spec fn fy_table(seed: u64, n: int, k: int) -> Seq<usize>
    decreases k,
{
    if k < 1 {
        Seq::new(n as nat, |i: int| i as usize)
    } else {
        let prev = fy_table(seed, n, k - 1);
        let j = (key_stream_at(seed, k) as int) % (k + 1);
        prev.update(k, prev[j]).update(j, prev[k])
    }
}

/// The table the fallback materializes: a function of seed and count alone, so
/// the same seed and count reproduce the same ordering, run after run.
pub open spec fn materialized_spec(seed: u64, n: int) -> Seq<usize> {
    fy_table(seed, n, n - 1)
}

/// Swapping two entries keeps a table a permutation: entries stay below `n`,
/// stay pairwise distinct, and every index below `n` still appears.
proof fn lemma_swap_keeps_permutation(t0: Seq<usize>, n: int, k: int, j: int)
    requires
        t0.len() == n,
        0 <= j < n,
        0 <= k < n,
        forall|t: int| 0 <= t < n ==> #[trigger] t0[t] < n,
        forall|t1: int, t2: int| 0 <= t1 < t2 < n ==> t0[t1] != t0[t2],
        forall|v: int| 0 <= v < n ==> #[trigger] t0.contains(v as usize),
    ensures
        ({
            let t = t0.update(k, t0[j]).update(j, t0[k]);
            &&& forall|u: int| 0 <= u < n ==> #[trigger] t[u] < n
            &&& forall|u1: int, u2: int| 0 <= u1 < u2 < n ==> t[u1] != t[u2]
            &&& forall|v: int| 0 <= v < n ==> #[trigger] t.contains(v as usize)
        }),
{
    let t = t0.update(k, t0[j]).update(j, t0[k]);
    assert forall|u: int| 0 <= u < n implies #[trigger] t[u] < n by {
        if u != k && u != j {
            assert(t[u] == t0[u]);
        }
    }
    assert forall|u1: int, u2: int| 0 <= u1 < u2 < n implies t[u1] != t[u2] by {
        let m1: int = if u1 == k {
            j
        } else if u1 == j {
            k
        } else {
            u1
        };
        let m2: int = if u2 == k {
            j
        } else if u2 == j {
            k
        } else {
            u2
        };
        assert(t[u1] == t0[m1]);
        assert(t[u2] == t0[m2]);
        assert(m1 != m2);
    }
    assert forall|v: int| 0 <= v < n implies #[trigger] t.contains(v as usize) by {
        assert(t0.contains(v as usize));
        let w = choose|w: int| 0 <= w < t0.len() && t0[w] == v as usize;
        let w2: int = if w == k {
            j
        } else if w == j {
            k
        } else {
            w
        };
        assert(t[w2] == v as usize);
    }
}

/// Every step of the fallback's table is a permutation of `[0, n)`.
proof fn lemma_fy_table_permutes(seed: u64, n: int, k: int)
    requires
        0 <= n <= usize::MAX,
        k < n,
    ensures
        ({
            let t = fy_table(seed, n, k);
            &&& t.len() == n
            &&& forall|u: int| 0 <= u < n ==> #[trigger] t[u] < n
            &&& forall|u1: int, u2: int| 0 <= u1 < u2 < n ==> t[u1] != t[u2]
            &&& forall|v: int| 0 <= v < n ==> #[trigger] t.contains(v as usize)
        }),
    decreases k + 1,
{
    let t = fy_table(seed, n, k);
    if k < 1 {
        assert forall|u: int| 0 <= u < n implies #[trigger] t[u] < n by {
            assert(t[u] == u as usize);
        }
        assert forall|u1: int, u2: int| 0 <= u1 < u2 < n implies t[u1] != t[u2] by {
            assert(t[u1] == u1 as usize && t[u2] == u2 as usize);
        }
        assert forall|v: int| 0 <= v < n implies #[trigger] t.contains(v as usize) by {
            assert(t[v] == v as usize);
        }
    } else {
        lemma_fy_table_permutes(seed, n, k - 1);
        lemma_mod_bound(key_stream_at(seed, k) as int, k + 1);
        let j = (key_stream_at(seed, k) as int) % (k + 1);
        let prev = fy_table(seed, n, k - 1);
        assert(t == prev.update(k, prev[j]).update(j, prev[k]));
        lemma_swap_keeps_permutation(prev, n, k, j);
    }
}

/// The materialized fallback strategy: the identity table, shuffled in place
/// by the seed's key stream. It spends the memory for a table of `n` indices
/// where the keyed engine spends none, and suits smaller chunk counts. The
/// result is a permutation of `[0, n)`: every entry lies below `n`, no two
/// entries are equal, and every index below `n` appears.
#[verifier::rlimit(100)]
pub fn materialized_permutation(seed: u64, n: usize) -> (r: Vec<usize>)
    ensures
        r@ == materialized_spec(seed, n as int),
        r@.len() == n,
        forall|k: int| 0 <= k < n ==> #[trigger] r@[k] < n,
        forall|k1: int, k2: int| 0 <= k1 < k2 < n ==> r@[k1] != r@[k2],
        forall|v: int| 0 <= v < n ==> #[trigger] r@.contains(v as usize),
{
    let mut tbl: Vec<usize> = Vec::new();
    let mut i: usize = 0;
    while i < n
        invariant
            tbl@.len() == i <= n,
            forall|t: int| 0 <= t < i ==> #[trigger] tbl@[t] == t,
        decreases n - i,
    {
        tbl.push(i);
        i += 1;
    }
    let mut s = seed;
    let mut k: usize = 1;
    proof {
        assert(tbl@ =~= fy_table(seed, n as int, 0));
    }
    while k < n
        invariant
            1 <= k,
            n <= 1 ==> k == 1,
            n > 1 ==> k <= n,
            s == key_stream_at(seed, k - 1),
            tbl@ == fy_table(seed, n as int, k - 1),
            tbl@.len() == n,
        decreases n - k,
    {
        s = key_stream_step(s);
        let j = (s % ((k as u64) + 1)) as usize;
        proof {
            assert(s == key_stream_at(seed, k as int));
            lemma_mod_bound(s as int, k as int + 1);
            assert(j == (key_stream_at(seed, k as int) as int) % (k as int + 1));
        }
        let ghost t0 = tbl@;
        let a = tbl[k];
        let b = tbl[j];
        tbl.set(k, b);
        tbl.set(j, a);
        proof {
            assert(tbl@ == t0.update(k as int, t0[j as int]).update(j as int, t0[k as int]));
            assert(tbl@ == fy_table(seed, n as int, k as int));
        }
        k += 1;
    }
    proof {
        if n == 0 {
            assert(fy_table(seed, 0, -1) =~= fy_table(seed, 0, 0));
        }
        assert(tbl@ == materialized_spec(seed, n as int));
        lemma_fy_table_permutes(seed, n as int, n as int - 1);
    }
    tbl
}

/// Some output position below `n` draws the source index `v`.
pub open spec fn pi_covers(seed: u64, n: u32, v: int) -> bool {
    exists|k: u32| k < n && #[trigger] pi_spec(seed, n, k) == v
}

/// The engine's map is a bijection on `[0, n)`: every output lies below `n`,
/// distinct positions draw distinct sources, and every source below `n` is
/// drawn by some position.
pub proof fn lemma_pi_bijective(seed: u64, n: u32)
    requires
        n >= 1,
    ensures
        forall|k: u32| k < n ==> 0 <= #[trigger] pi_spec(seed, n, k) < n,
        forall|k1: u32, k2: u32|
            k1 < n && k2 < n && k1 != k2 ==> pi_spec(seed, n, k1) != pi_spec(seed, n, k2),
        forall|v: int| 0 <= v < n ==> #[trigger] pi_covers(seed, n, v),
{
    let e = effective_seed(seed_to_u32(seed), n);
    lemma_mod_bound(seed_to_u32(seed) as int, 0x1_0000_0000 - (n - 1));
    assert forall|k: u32| k < n implies 0 <= #[trigger] pi_spec(seed, n, k) < n by {
        lemma_mod_bound(k + e, n as int);
    }
    assert forall|k1: u32, k2: u32| k1 < n && k2 < n && k1 != k2 implies pi_spec(seed, n, k1)
        != pi_spec(seed, n, k2) by {
        lemma_fundamental_div_mod(k1 + e, n as int);
        lemma_fundamental_div_mod(k2 + e, n as int);
        if pi_spec(seed, n, k1) == pi_spec(seed, n, k2) {
            let q1 = (k1 + e) / (n as int);
            let q2 = (k2 + e) / (n as int);
            assert((n as int) * q1 - (n as int) * q2 == k1 - k2);
            assert(q1 == q2) by (nonlinear_arith)
                requires
                    (n as int) * q1 - (n as int) * q2 == k1 - k2,
                    -(n as int) < k1 - k2 < n as int,
                    n >= 1,
            ;
            assert(false);
        }
    }
    let r0 = e % (n as int);
    lemma_mod_bound(e, n as int);
    lemma_fundamental_div_mod(e, n as int);
    let q = e / (n as int);
    assert forall|v: int| 0 <= v < n implies #[trigger] pi_covers(seed, n, v) by {
        let k: int = if v >= r0 {
            v - r0
        } else {
            v + n - r0
        };
        let ku = k as u32;
        assert(0 <= k < n);
        assert(ku + e == (n as int) * q + (k + r0));
        lemma_mod_multiples_vanish(q, k + r0, n as int);
        if v >= r0 {
            lemma_small_mod(v as nat, n as nat);
        } else {
            lemma_mod_multiples_vanish(1, v, n as int);
            lemma_small_mod(v as nat, n as nat);
        }
        assert(pi_spec(seed, n, ku) == v);
    }
}

} // verus!
