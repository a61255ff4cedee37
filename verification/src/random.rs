//! Draws from the operating system's cryptographic random number generator
//! (rand's `OsRng`), and what is made of them.  What a draw gives depends
//! on chance, so the contracts of the draws state only their range; the
//! functions that turn draws into characters are exact.
use rand::rngs::OsRng;
use rand::Rng;
use vstd::prelude::*;

verus! {

/// rand's handle on the operating system's random number generator.
#[verifier::external_type_specification]
#[verifier::external_body]
pub struct ExOsRng(OsRng);

/// A handle on the operating system's random number generator
/// (`rand::rngs::OsRng`, a unit struct).
#[verifier::external_body]
pub(crate) fn os_rng() -> (rng: OsRng) {
    OsRng
}

/// `rng.gen_range(0..n)` from rand: a uniformly drawn index below `n`.
/// rand panics on an empty range, hence `n > 0`.  The contract states the
/// range only; rand's documentation promises no more of a single draw (and
/// `OsRng` itself panics if the operating system cannot supply randomness,
/// which no clause can exclude).
#[verifier::external_body]
pub(crate) fn uniform_index(rng: &mut OsRng, n: usize) -> (r: usize)
    requires
        n > 0,
    ensures
        r < n,
{
    rng.gen_range(0..n)
}

/// `rng.gen_range(lo..=hi)` from rand for `usize`: a value drawn from the
/// closed range, which must not be empty.
#[verifier::external_body]
pub(crate) fn uniform_usize_inclusive(rng: &mut OsRng, lo: usize, hi: usize) -> (r: usize)
    requires
        lo <= hi,
    ensures
        lo <= r <= hi,
{
    rng.gen_range(lo..=hi)
}

/// `rng.gen_range(lo..hi)` from rand for `u32`: a value drawn from the
/// half-open range, which must not be empty.
#[verifier::external_body]
pub(crate) fn uniform_u32(rng: &mut OsRng, lo: u32, hi: u32) -> (r: u32)
    requires
        lo < hi,
    ensures
        lo <= r < hi,
{
    rng.gen_range(lo..hi)
}

// ---------------------------------------------------------------------------
// What the draws give
// ---------------------------------------------------------------------------

/// Every draw is a position of a sequence of length `n`.
pub open spec fn positions_below(draws: Seq<usize>, n: int) -> bool {
    forall|k: int| 0 <= k < draws.len() ==> #[trigger] draws[k] < n
}

/// The characters at the drawn positions, in order.
pub open spec fn picked(pool: Seq<char>, draws: Seq<usize>) -> Seq<char> {
    Seq::new(draws.len(), |k: int| pool[draws[k] as int])
}

/// Draws for a partial Fisher-Yates shuffle of `n` items: step `i` draws an
/// offset below `n - i`.
pub open spec fn shuffle_draws(draws: Seq<usize>, n: int) -> bool {
    &&& draws.len() <= n
    &&& forall|i: int| 0 <= i < draws.len() ==> #[trigger] draws[i] < n - i
}

/// `s` with the items at `i` and `j` exchanged.
pub open spec fn swapped(s: Seq<char>, i: int, j: int) -> Seq<char> {
    s.update(i, s[j]).update(j, s[i])
}

/// The pool after the steps of a partial Fisher-Yates shuffle: step `i`
/// exchanges position `i` with position `i + draws[i]`.
pub open spec fn shuffled(pool: Seq<char>, draws: Seq<usize>) -> Seq<char>
    decreases draws.len(),
{
    if draws.len() == 0 {
        pool
    } else {
        let i = draws.len() - 1;
        swapped(shuffled(pool, draws.drop_last()), i, i + draws.last())
    }
}

/// `count` positions below `n`, drawn uniformly and independently.
pub(crate) fn draw_positions(rng: &mut OsRng, n: usize, count: usize) -> (draws: Vec<usize>)
    requires
        n > 0,
    ensures
        draws@.len() == count,
        positions_below(draws@, n as int),
{
    let mut draws: Vec<usize> = Vec::new();
    let mut k: usize = 0;
    while k < count
        invariant
            n > 0,
            k <= count,
            draws@.len() == k,
            positions_below(draws@, n as int),
        decreases count - k,
    {
        draws.push(uniform_index(rng, n));
        k = k + 1;
    }
    draws
}

/// The offsets of a partial Fisher-Yates shuffle of `n` items over `count`
/// steps, each drawn uniformly below `n - i` at step `i`.
pub(crate) fn draw_shuffle(rng: &mut OsRng, n: usize, count: usize) -> (draws: Vec<usize>)
    requires
        count <= n,
    ensures
        draws@.len() == count,
        shuffle_draws(draws@, n as int),
{
    let mut draws: Vec<usize> = Vec::new();
    let mut i: usize = 0;
    while i < count
        invariant
            count <= n,
            i <= count,
            draws@.len() == i,
            shuffle_draws(draws@, n as int),
        decreases count - i,
    {
        draws.push(uniform_index(rng, n - i));
        i = i + 1;
    }
    draws
}

/// The characters of `pool` at the drawn positions.
pub fn pick_chars(pool: &[char], draws: &Vec<usize>) -> (out: Vec<char>)
    requires
        positions_below(draws@, pool@.len() as int),
    ensures
        out@ == picked(pool@, draws@),
{
    let mut out: Vec<char> = Vec::new();
    let mut k: usize = 0;
    while k < draws.len()
        invariant
            k <= draws@.len(),
            positions_below(draws@, pool@.len() as int),
            out@ == picked(pool@, draws@).take(k as int),
        decreases draws@.len() - k,
    {
        out.push(pool[draws[k]]);
        k = k + 1;
        assert(out@ =~= picked(pool@, draws@).take(k as int));
    }
    assert(out@ =~= picked(pool@, draws@));
    out
}

/// `out` takes its characters from pairwise different positions of `pool`.
pub open spec fn distinct_positions(out: Seq<char>, pool: Seq<char>) -> bool {
    exists|pos: Seq<int>|
        #[trigger] pos.len() == out.len() && pos.no_duplicates() && forall|k: int|
            0 <= k < out.len() ==> 0 <= #[trigger] pos[k] < pool.len() && out[k] == pool[pos[k]]
}

/// `perm` is a permutation of `0..n` and `inv` its inverse.
pub open spec fn perm_pair(perm: Seq<int>, inv: Seq<int>, n: int) -> bool {
    &&& perm.len() == n
    &&& inv.len() == n
    &&& forall|t: int| 0 <= t < n ==> 0 <= #[trigger] perm[t] < n && inv[perm[t]] == t
    &&& forall|p: int| 0 <= p < n ==> 0 <= #[trigger] inv[p] < n && perm[inv[p]] == p
}

/// The first `draws.len()` items of the pool after a partial Fisher-Yates
/// shuffle with the given offsets.  No position is used twice, so no
/// character repeats when the pool has none, and the whole pool comes out
/// when every position is shuffled.
pub fn partial_shuffle(pool: &[char], draws: &Vec<usize>) -> (out: Vec<char>)
    requires
        shuffle_draws(draws@, pool@.len() as int),
    ensures
        out@ == shuffled(pool@, draws@).take(draws@.len() as int),
        out@.len() == draws@.len(),
        forall|i: int| 0 <= i < out@.len() ==> pool@.contains(#[trigger] out@[i]),
        distinct_positions(out@, pool@),
        pool@.no_duplicates() ==> out@.no_duplicates(),
        draws@.len() == pool@.len() ==> forall|c: char|
            pool@.contains(c) ==> #[trigger] out@.contains(c),
{
    let n = pool.len();
    let len = draws.len();
    let mut buf: Vec<char> = Vec::new();
    let mut k: usize = 0;
    while k < n
        invariant
            n == pool@.len(),
            k <= n,
            buf@ == pool@.take(k as int),
        decreases n - k,
    {
        buf.push(pool[k]);
        k = k + 1;
        assert(buf@ =~= pool@.take(k as int));
    }
    assert(buf@ =~= pool@);
    assert(draws@.take(0) =~= Seq::<usize>::empty());
    // `buf[t] == pool[perm[t]]`, with `perm` a permutation whose inverse is `inv`.
    let ghost mut perm: Seq<int> = Seq::new(n as nat, |t: int| t);
    let ghost mut inv: Seq<int> = Seq::new(n as nat, |t: int| t);
    let mut i: usize = 0;
    while i < len
        invariant
            n == pool@.len(),
            len == draws@.len(),
            i <= len,
            shuffle_draws(draws@, n as int),
            buf@.len() == n,
            buf@ == shuffled(pool@, draws@.take(i as int)),
            perm_pair(perm, inv, n as int),
            forall|t: int| 0 <= t < n ==> #[trigger] buf@[t] == pool@[perm[t]],
        decreases len - i,
    {
        let j = i + draws[i];
        let a = buf[i];
        let b = buf[j];
        let ghost old_buf = buf@;
        let ghost old_perm = perm;
        let ghost old_inv = inv;
        buf.set(i, b);
        buf.set(j, a);
        proof {
            assert(draws@.take(i + 1).drop_last() =~= draws@.take(i as int));
            assert(buf@ =~= swapped(old_buf, i as int, j as int));
            let pi = old_perm[i as int];
            let pj = old_perm[j as int];
            perm = old_perm.update(i as int, pj).update(j as int, pi);
            inv = old_inv.update(pi, j as int).update(pj, i as int);
            assert forall|t: int| 0 <= t < n implies 0 <= #[trigger] perm[t] < n && inv[perm[t]]
                == t by {
                if t != i && t != j {
                    assert(perm[t] == old_perm[t]);
                    assert(old_inv[old_perm[t]] == t);
                }
            }
            assert forall|p: int| 0 <= p < n implies 0 <= #[trigger] inv[p] < n && perm[inv[p]]
                == p by {
                if p != pj && p != pi {
                    assert(inv[p] == old_inv[p]);
                    assert(old_perm[old_inv[p]] == p);
                }
            }
            assert forall|t: int| 0 <= t < n implies #[trigger] buf@[t] == pool@[perm[t]] by {
                if t == i {
                    assert(buf@[t] == old_buf[j as int]);
                } else if t == j {
                    assert(buf@[t] == old_buf[i as int]);
                } else {
                    assert(buf@[t] == old_buf[t]);
                }
            }
        }
        i = i + 1;
    }
    assert(draws@.take(len as int) =~= draws@);
    let ghost full = buf@;
    buf.truncate(len);
    proof {
        let pos = perm.take(len as int);
        assert(buf@.len() == len);
        assert(pos.len() == len);
        assert forall|k: int| 0 <= k < len implies 0 <= #[trigger] pos[k] < pool@.len() && buf@[k]
            == pool@[pos[k]] by {
            assert(full[k] == pool@[perm[k]]);
        }
        assert(pos.no_duplicates()) by {
            assert forall|s: int, t: int|
                0 <= s < pos.len() && 0 <= t < pos.len() && s != t implies pos[s] != pos[t] by {
                if pos[s] == pos[t] {
                    assert(inv[perm[s]] == s);
                    assert(inv[perm[t]] == t);
                }
            }
        }
        assert(distinct_positions(buf@, pool@));
        assert forall|i: int| 0 <= i < buf@.len() implies pool@.contains(#[trigger] buf@[i]) by {
            assert(buf@[i] == pool@[pos[i]]);
        }
        if pool@.no_duplicates() {
            assert forall|s: int, t: int| 0 <= s < len && 0 <= t < len && s != t implies buf@[s]
                != buf@[t] by {
                assert(buf@[s] == pool@[pos[s]]);
                assert(buf@[t] == pool@[pos[t]]);
            }
        }
        if len == n {
            assert forall|c: char| pool@.contains(c) implies #[trigger] buf@.contains(c) by {
                let p = choose|p: int| 0 <= p < pool@.len() && pool@[p] == c;
                let t = inv[p];
                assert(buf@[t] == pool@[perm[t]]);
            }
        }
    }
    buf
}

} // verus!
