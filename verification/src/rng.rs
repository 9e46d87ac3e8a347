//! A small deterministic pseudo-random source for mine placement, and a
//! partial shuffle that draws distinct samples from a pool of indices.
//!
//! The engine never promises anything about which cells the draw picks,
//! only that the picks are distinct members of the pool; callers thread
//! an explicit seed, so the core holds no hidden state.
use vstd::pervasive::VecAdditionalExecFns;
use vstd::prelude::*;

verus! {

/// One step of a 64-bit linear congruential generator.
pub fn next_state(s: u64) -> u64 {
    s.wrapping_mul(6364136223846793005).wrapping_add(1442695040888963407)
}

/// A value below `bound`, mixed from the generator state's high bits.
pub fn rand_below(s: u64, bound: usize) -> (r: usize)
    requires
        1 <= bound,
    ensures
        r < bound,
{
    let hi = s >> 33;
    assert(hi <= 0x7fffffffu64) by (bit_vector)
        requires
            hi == s >> 33,
    ;
    (hi as usize) % bound
}

/// Exchange two entries of an index vector.
fn swap_entries(v: &mut Vec<usize>, a: usize, b: usize)
    requires
        a < old(v).len(),
        b < old(v).len(),
    ensures
        final(v)@ == old(v)@.update(a as int, old(v)@[b as int]).update(
            b as int,
            old(v)@[a as int],
        ),
{
    let x = v[a];
    let y = v[b];
    v.set(a, y);
    v.set(b, x);
}

/// All indices below `n`, leaving out `skip` when it is on the grid.
pub fn index_pool(n: usize, skip: Option<usize>) -> (v: Vec<usize>)
    ensures
        v@.no_duplicates(),
        forall|j: int| 0 <= j < v@.len() ==> #[trigger] v@[j] < n,
        match skip {
            Some(t) => !v@.contains(t) && (t < n ==> v@.len() == n - 1) && (t >= n ==> v@.len()
                == n),
            None => v@.len() == n,
        },
{
    let mut v: Vec<usize> = Vec::new();
    let mut i: usize = 0;
    let ghost skipped: Seq<usize> = Seq::empty();
    while i < n
        invariant
            i <= n,
            forall|p: int, q: int| 0 <= p < q < v@.len() ==> v@[p] < v@[q],
            forall|j: int| 0 <= j < v@.len() ==> #[trigger] v@[j] < i,
            match skip {
                Some(t) => !v@.contains(t) && (t < i ==> v@.len() == i - 1) && (t >= i ==> v@.len()
                    == i),
                None => v@.len() == i,
            },
        decreases n - i,
    {
        let take = match skip {
            Some(t) => t != i,
            None => true,
        };
        if take {
            v.push(i);
        }
        i = i + 1;
    }
    proof {
        assert forall|p: int, q: int|
            0 <= p < v@.len() && 0 <= q < v@.len() && p != q implies v@[p] != v@[q] by {
            if p < q {
            } else {
            }
        }
    }
    v
}

/// Draw `k` distinct entries from the pool by a partial shuffle driven
/// by `seed`. The pool is consumed as scratch space.
pub fn sample_distinct(pool: &mut Vec<usize>, k: usize, seed: u64) -> (picks: Vec<usize>)
    requires
        k <= old(pool).len(),
        old(pool)@.no_duplicates(),
    ensures
        picks@.len() == k,
        picks@.no_duplicates(),
        forall|j: int| 0 <= j < k ==> old(pool)@.contains(#[trigger] picks@[j]),
{
    let ghost orig: Seq<usize> = pool@;
    let n = pool.len();
    let mut state = seed;
    let mut t: usize = 0;
    let mut picks: Vec<usize> = Vec::new();
    while t < k
        invariant
            t <= k,
            k <= n,
            pool@.len() == n,
            pool@.no_duplicates(),
            forall|p: int| 0 <= p < n ==> orig.contains(#[trigger] pool@[p]),
            orig.no_duplicates(),
            orig.len() == n,
            picks@ == pool@.subrange(0, t as int),
        decreases k - t,
    {
        state = next_state(state);
        let j = t + rand_below(state, n - t);
        let ghost before: Seq<usize> = pool@;
        swap_entries(pool, t, j);
        proof {
            assert forall|p: int, q: int|
                0 <= p < pool@.len() && 0 <= q < pool@.len() && p != q implies pool@[p]
                != pool@[q] by {}
            assert(pool@.subrange(0, t as int) =~= before.subrange(0, t as int));
            assert(pool@.subrange(0, t + 1) =~= pool@.subrange(0, t as int).push(
                pool@[t as int],
            ));
        }
        let picked = pool[t];
        picks.push(picked);
        t = t + 1;
    }
    proof {
        assert(picks@.no_duplicates());
        assert forall|j: int| 0 <= j < k implies orig.contains(#[trigger] picks@[j]) by {
            assert(picks@[j] == pool@[j]);
        }
    }
    picks
}

} // verus!
