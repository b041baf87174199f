//! Deterministic circular block bootstrap over a return series: the SplitMix64
//! generator, the automatic block length, and the index plan that says which
//! daily return feeds each step of each synthetic equity curve.

use vstd::prelude::*;

verus! {

/// The SplitMix64 increment (the golden-ratio constant).
pub const GOLDEN_GAMMA: u64 = 0x9E37_79B9_7F4A_7C15;

/// SplitMix64 finaliser applied to an advanced state.
pub open spec fn spec_mix(z: u64) -> u64 {
    let z1 = (z ^ (z >> 30u64)).wrapping_mul(0xBF58_476D_1CE4_E5B9u64);
    let z2 = (z1 ^ (z1 >> 27u64)).wrapping_mul(0x94D0_49BB_1331_11EBu64);
    z2 ^ (z2 >> 31u64)
}

/// The state after one draw.
pub open spec fn spec_advance(state: u64) -> u64 {
    state.wrapping_add(GOLDEN_GAMMA)
}

/// The state after `k` draws from `seed`.
pub open spec fn spec_state_after(seed: u64, k: nat) -> u64
    decreases k,
{
    if k == 0 {
        seed
    } else {
        spec_advance(spec_state_after(seed, (k - 1) as nat))
    }
}

/// SplitMix64: a tiny deterministic PRNG, good enough for resampling
/// indices (not cryptographic).
pub struct SplitMix64 {
    state: u64,
}

impl View for SplitMix64 {
    type V = u64;

    closed spec fn view(&self) -> u64 {
        self.state
    }
}

impl SplitMix64 {
    /// A generator seeded with `seed`.
    pub fn new(seed: u64) -> (r: Self)
        ensures
            r@ == seed,
    {
        SplitMix64 { state: seed }
    }

    /// Advance the state and return the mixed output.
    pub fn next_u64(&mut self) -> (r: u64)
        ensures
            final(self)@ == spec_advance(old(self)@),
            r == spec_mix(final(self)@),
    {
        self.state = self.state.wrapping_add(GOLDEN_GAMMA);
        let mut z = self.state;
        z = (z ^ (z >> 30)).wrapping_mul(0xBF58_476D_1CE4_E5B9);
        z = (z ^ (z >> 27)).wrapping_mul(0x94D0_49BB_1331_11EB);
        z ^ (z >> 31)
    }

    /// Uniform-ish in `0..n` (`n > 0`): the next output reduced modulo `n`.
    pub fn below(&mut self, n: usize) -> (r: usize)
        requires
            n > 0,
        ensures
            final(self)@ == spec_advance(old(self)@),
            r as int == spec_mix(final(self)@) as int % n as int,
            r < n,
    {
        let x = self.next_u64();
        (x % (n as u64)) as usize
    }
}

/// Two generators with the same seed produce the same draws: after `k`
/// draws both sit in the same state, so their next outputs agree.
pub proof fn lemma_same_seed_same_stream(seed: u64, k: nat)
    ensures
        spec_mix(spec_advance(spec_state_after(seed, k))) == spec_mix(spec_state_after(seed, k + 1)),
{
}

// ---------------------------------------------------------------------------
// Block length
// ---------------------------------------------------------------------------

/// Integer square root: the `r` with `r * r <= n < (r + 1) * (r + 1)`.
pub open spec fn is_isqrt(n: int, r: int) -> bool {
    r >= 0 && r * r <= n && n < (r + 1) * (r + 1)
}

/// `floor(sqrt(n))`, computed exactly by bisection.
pub fn isqrt(n: u64) -> (r: u64)
    ensures
        is_isqrt(n as int, r as int),
{
    let mut lo: u64 = 0;
    let mut hi: u64 = 4_294_967_296;
    assert(hi * hi > n) by (nonlinear_arith)
        requires
            hi == 4_294_967_296u64,
            n <= u64::MAX,
    ;
    while hi - lo > 1
        invariant
            lo < hi <= 4_294_967_296,
            lo * lo <= n,
            n < hi * hi,
        decreases hi - lo,
    {
        let mid = lo + (hi - lo) / 2;
        assert(lo < mid < hi);
        assert(mid * mid <= 4_294_967_296 * 4_294_967_296) by (nonlinear_arith)
            requires
                mid < 4_294_967_296,
        ;
        let sq: u128 = (mid as u128) * (mid as u128);
        if sq <= n as u128 {
            lo = mid;
        } else {
            hi = mid;
        }
    }
    assert(hi == lo + 1);
    lo
}

/// The block length for `n` daily returns (`0` = auto, `floor(sqrt(n))`,
/// never below 1).
pub fn block_len_for(n: usize, block_len: usize) -> (r: usize)
    ensures
        r >= 1,
        block_len > 0 ==> r == block_len,
        block_len == 0 && n >= 1 ==> is_isqrt(n as int, r as int),
        block_len == 0 && n == 0 ==> r == 1,
{
    if block_len == 0 {
        let s = isqrt(n as u64);
        if s == 0 {
            assert(n == 0) by (nonlinear_arith)
                requires
                    n < (s + 1) * (s + 1),
                    s == 0,
            ;
            1
        } else {
            assert(s * s <= n);
            assert(s <= n) by (nonlinear_arith)
                requires
                    s * s <= n,
                    s >= 1,
            ;
            s as usize
        }
    } else {
        block_len
    }
}

// ---------------------------------------------------------------------------
// Index plan
// ---------------------------------------------------------------------------

/// The return indices feeding `remaining` more steps of one synthetic curve
/// drawn from `state`: each block starts at a uniform draw below `n` and
/// walks forward circularly for up to `block` steps. Also yields the
/// generator state after the curve.
pub open spec fn spec_curve_indices(state: u64, n: nat, block: nat, remaining: nat) -> (Seq<
    usize,
>, u64)
    decreases remaining,
{
    if remaining == 0 || n == 0 || block == 0 {
        (Seq::empty(), state)
    } else {
        let s = spec_advance(state);
        let start = (spec_mix(s) as int % n as int) as nat;
        let take = if block < remaining {
            block
        } else {
            remaining
        };
        let head = Seq::new(take, |j: int| ((start + j) % (n as int)) as usize);
        let rest = spec_curve_indices(s, n, block, (remaining - take) as nat);
        (head + rest.0, rest.1)
    }
}

/// Index plans of `count` successive curves drawn from `state`.
pub open spec fn spec_plans(state: u64, n: nat, block: nat, len: nat, count: nat) -> Seq<
    Seq<usize>,
>
    decreases count,
{
    if count == 0 {
        Seq::empty()
    } else {
        let first = spec_curve_indices(state, n, block, len);
        seq![first.0] + spec_plans(first.1, n, block, len, (count - 1) as nat)
    }
}

proof fn lemma_curve_indices_shape(state: u64, n: nat, block: nat, remaining: nat)
    requires
        n > 0,
        block > 0,
    ensures
        spec_curve_indices(state, n, block, remaining).0.len() == remaining,
        forall|i: int|
            0 <= i < remaining ==> (#[trigger] spec_curve_indices(state, n, block, remaining).0[i])
                < n,
    decreases remaining,
{
    if remaining > 0 {
        let s = spec_advance(state);
        let take = if block < remaining {
            block
        } else {
            remaining
        };
        lemma_curve_indices_shape(s, n, block, (remaining - take) as nat);
        let start = (spec_mix(s) as int % n as int) as nat;
        let head = Seq::new(take, |j: int| ((start + j) % (n as int)) as usize);
        let rest = spec_curve_indices(s, n, block, (remaining - take) as nat);
        assert forall|i: int| 0 <= i < remaining implies (#[trigger] spec_curve_indices(
            state,
            n,
            block,
            remaining,
        ).0[i]) < n by {
            if i < take {
                assert((head + rest.0)[i] == head[i]);
            } else {
                assert((head + rest.0)[i] == rest.0[i - take]);
            }
        }
    }
}

proof fn lemma_curve_walks(state: u64, n: nat, block: nat, remaining: nat)
    requires
        0 < n <= usize::MAX,
        block > 0,
    ensures
        forall|j: int|
            0 <= j && j + 1 < remaining && (j + 1) % (block as int) != 0 ==> (#[trigger] spec_curve_indices(
                state,
                n,
                block,
                remaining,
            ).0[j + 1]) as int == (spec_curve_indices(state, n, block, remaining).0[j] as int + 1) % (n as int),
    decreases remaining,
{
    if remaining > 0 {
        let s = spec_advance(state);
        let take = if block < remaining {
            block
        } else {
            remaining
        };
        let start = (spec_mix(s) as int % n as int) as nat;
        let head = Seq::new(take, |j: int| ((start + j) % (n as int)) as usize);
        let rest = spec_curve_indices(s, n, block, (remaining - take) as nat);
        lemma_curve_walks(s, n, block, (remaining - take) as nat);
        lemma_curve_indices_shape(s, n, block, (remaining - take) as nat);
        let r = spec_curve_indices(state, n, block, remaining).0;
        assert(r == head + rest.0);
        assert forall|j: int|
            0 <= j && j + 1 < remaining && (j + 1) % (block as int) != 0 implies (#[trigger] r[j + 1]) as int
                == (r[j] as int + 1) % (n as int) by {
            if j + 1 < take {
                let x = start + j;
                assert(r[j] == head[j] && r[j + 1] == head[j + 1]);
                assert(0 <= x % (n as int) < n);
                assert(0 <= (x + 1) % (n as int) < n);
                assert(head[j] as int == x % (n as int));
                assert(head[j + 1] as int == (x + 1) % (n as int));
                vstd::arithmetic::div_mod::lemma_add_mod_noop(x, 1, n as int);
                if n > 1 {
                    vstd::arithmetic::div_mod::lemma_small_mod(1, n);
                } else {
                    assert((x % (n as int) + 1) % (n as int) == 0);
                    assert((x + 1) % (n as int) == 0);
                }
            } else if j + 1 == take {
                if take == block {
                    vstd::arithmetic::div_mod::lemma_mod_self_0(block as int);
                }
            } else {
                assert(take == block);
                assert(r[j] == rest.0[j - take] && r[j + 1] == rest.0[j + 1 - take]);
                vstd::arithmetic::div_mod::lemma_mod_add_multiples_vanish(j + 1 - block, block as int);
                let j2 = j - take;
                assert((j2 + 1) % (block as int) != 0);
                assert(j2 + 1 < remaining - take);
                assert((rest.0[j2 + 1]) as int == (rest.0[j2] as int + 1) % (n as int));
            }
        }
    }
}

/// Blocks walk forward circularly: within a block of a planned curve, each
/// return index follows the one before it, wrapping from the last return
/// to the first. Positions `j` and `j + 1` of a curve share a block unless
/// `j + 1` is a multiple of the block length.
pub proof fn law_blocks_walk_forward(seed: u64, n: nat, block: nat, len: nat, count: nat)
    requires
        0 < n <= usize::MAX,
        block > 0,
    ensures
        forall|i: int, j: int|
            0 <= i < count && 0 <= j && j + 1 < len && (j + 1) % (block as int) != 0 ==> (#[trigger] spec_plans(
                seed,
                n,
                block,
                len,
                count,
            )[i][j + 1]) as int == (spec_plans(seed, n, block, len, count)[i][j] as int + 1) % (n as int),
    decreases count,
{
    if count > 0 {
        let first = spec_curve_indices(seed, n, block, len);
        lemma_curve_walks(seed, n, block, len);
        law_blocks_walk_forward(first.1, n, block, len, (count - 1) as nat);
        let p = spec_plans(seed, n, block, len, count);
        let q = spec_plans(first.1, n, block, len, (count - 1) as nat);
        lemma_plans_len(first.1, n, block, len, (count - 1) as nat);
        assert(p == seq![first.0] + q);
        assert forall|i: int, j: int|
            0 <= i < count && 0 <= j && j + 1 < len && (j + 1) % (block as int) != 0 implies (#[trigger] p[i][j + 1]) as int
                == (p[i][j] as int + 1) % (n as int) by {
            if i == 0 {
                assert(p[0] == first.0);
            } else {
                assert(p[i] == q[i - 1]);
            }
        }
    }
}

/// Append one curve's return indices (`remaining` steps) drawn from `rng`.
fn push_curve_indices(rng: &mut SplitMix64, n: usize, block: usize, remaining: usize, out: &mut Vec<usize>)
    requires
        n > 0,
        block > 0,
    ensures
        final(out)@ == old(out)@ + spec_curve_indices(old(rng)@, n as nat, block as nat, remaining as nat).0,
        final(rng)@ == spec_curve_indices(old(rng)@, n as nat, block as nat, remaining as nat).1,
    decreases remaining,
{
    if remaining == 0 {
        assert(old(out)@ + Seq::<usize>::empty() =~= old(out)@);
        return;
    }
    let ghost s0 = rng@;
    let ghost out0 = out@;
    let start = rng.below(n);
    let take = if block < remaining {
        block
    } else {
        remaining
    };
    let mut j: usize = 0;
    while j < take
        invariant
            j <= take,
            take <= remaining,
            n > 0,
            start < n,
            out@ == out0 + Seq::new(j as nat, |k: int| ((start + k) % (n as int)) as usize),
        decreases take - j,
    {
        let idx = ((start as u128 + j as u128) % (n as u128)) as usize;
        out.push(idx);
        assert(out@ =~= out0 + Seq::new((j + 1) as nat, |k: int| ((start + k) % (n as int)) as usize));
        j = j + 1;
    }
    let ghost head = Seq::new(take as nat, |k: int| ((start + k) % (n as int)) as usize);
    push_curve_indices(rng, n, block, remaining - take, out);
    proof {
        let rest = spec_curve_indices(spec_advance(s0), n as nat, block as nat, (remaining - take) as nat);
        assert(spec_curve_indices(s0, n as nat, block as nat, remaining as nat) == (head + rest.0, rest.1));
        assert(out@ =~= old(out)@ + (head + rest.0));
    }
}

/// The resampling plan of a bootstrap run.
pub struct BootstrapPlan {
    /// Block length actually used.
    pub block_len: usize,
    /// For each synthetic curve, the index into the daily returns of every
    /// step after the base row.
    pub samples: Vec<Vec<usize>>,
}

/// Plan `n_samples` synthetic curves over an equity curve of `n_points`
/// points with a matching date axis of `n_dates` points. `None` when the run
/// is off (`n_samples == 0`), the curve has fewer than 3 points, or the axes
/// disagree. The curves share one generator seeded with `seed`, drawn in
/// order; each curve has `n_points - 1` steps.
pub fn bootstrap_plan(n_dates: usize, n_points: usize, n_samples: usize, block_len: usize, seed: u64) -> (r: Option<BootstrapPlan>)
    ensures
        r is None <==> (n_samples == 0 || n_points < 3 || n_dates != n_points),
        r matches Some(p) ==> {
            &&& p.block_len >= 1
            &&& block_len > 0 ==> p.block_len == block_len
            &&& block_len == 0 ==> is_isqrt(n_points - 1, p.block_len as int)
            &&& p.samples@.len() == n_samples
            &&& forall|i: int| 0 <= i < n_samples ==> (#[trigger] p.samples@[i])@ == spec_plans(
                seed,
                (n_points - 1) as nat,
                p.block_len as nat,
                (n_points - 1) as nat,
                n_samples as nat,
            )[i]
            &&& forall|i: int, j: int| 0 <= i < n_samples && 0 <= j < n_points - 1 ==> (
            #[trigger] p.samples@[i]@[j]) < n_points - 1
            &&& forall|i: int| 0 <= i < n_samples ==> (#[trigger] p.samples@[i])@.len() == n_points - 1
        },
{
    if n_samples == 0 || n_points < 3 || n_dates != n_points {
        return None;
    }
    let n = n_points - 1;
    let block = block_len_for(n, block_len);
    let mut rng = SplitMix64::new(seed);
    let mut samples: Vec<Vec<usize>> = Vec::new();
    let mut k: usize = 0;
    while k < n_samples
        invariant
            k <= n_samples,
            n > 0,
            block > 0,
            samples@.len() == k,
            rng@ == spec_plans_state(seed, n as nat, block as nat, n as nat, k as nat),
            forall|i: int| 0 <= i < k ==> (#[trigger] samples@[i])@ == spec_plans(
                seed,
                n as nat,
                block as nat,
                n as nat,
                k as nat,
            )[i],
        decreases n_samples - k,
    {
        let mut cur: Vec<usize> = Vec::new();
        let ghost st = rng@;
        push_curve_indices(&mut rng, n, block, n, &mut cur);
        assert(cur@ =~= spec_curve_indices(st, n as nat, block as nat, n as nat).0);
        proof {
            lemma_plans_split(seed, n as nat, block as nat, n as nat, k as nat);
            lemma_plans_state_split(seed, n as nat, block as nat, n as nat, k as nat);
            lemma_plans_len(seed, n as nat, block as nat, n as nat, k as nat);
        }
        samples.push(cur);
        k = k + 1;
        proof {
            assert forall|i: int| 0 <= i < k implies (#[trigger] samples@[i])@ == spec_plans(
                seed,
                n as nat,
                block as nat,
                n as nat,
                k as nat,
            )[i] by {
                if i < k - 1 {
                    assert(spec_plans(seed, n as nat, block as nat, n as nat, k as nat)[i]
                        == spec_plans(seed, n as nat, block as nat, n as nat, (k - 1) as nat)[i]);
                }
            }
        }
    }
    proof {
        assert forall|i: int, j: int| 0 <= i < n_samples && 0 <= j < n implies (
        #[trigger] samples@[i]@[j]) < n by {
            lemma_plans_shape(seed, n as nat, block as nat, n as nat, n_samples as nat, i);
        }
        assert forall|i: int| 0 <= i < n_samples implies (#[trigger] samples@[i])@.len() == n by {
            lemma_plans_shape(seed, n as nat, block as nat, n as nat, n_samples as nat, i);
        }
    }
    Some(BootstrapPlan { block_len: block, samples })
}

proof fn lemma_plans_len(state: u64, n: nat, block: nat, len: nat, count: nat)
    ensures
        spec_plans(state, n, block, len, count).len() == count,
    decreases count,
{
    if count > 0 {
        lemma_plans_len(spec_curve_indices(state, n, block, len).1, n, block, len, (count - 1) as nat);
    }
}

proof fn lemma_plans_state_split(seed: u64, n: nat, block: nat, len: nat, k: nat)
    ensures
        spec_plans_state(seed, n, block, len, k + 1) == spec_curve_indices(
            spec_plans_state(seed, n, block, len, k),
            n,
            block,
            len,
        ).1,
    decreases k,
{
    let s1 = spec_curve_indices(seed, n, block, len).1;
    if k > 0 {
        lemma_plans_state_split(s1, n, block, len, (k - 1) as nat);
    } else {
        assert(spec_plans_state(s1, n, block, len, 0) == s1);
    }
}

/// The plan of `k + 1` curves extends the plan of `k` curves by the curve
/// drawn from the state the first `k` leave behind.
proof fn lemma_plans_split(seed: u64, n: nat, block: nat, len: nat, k: nat)
    ensures
        spec_plans(seed, n, block, len, k + 1) == spec_plans(seed, n, block, len, k) + seq![
            spec_curve_indices(spec_plans_state(seed, n, block, len, k), n, block, len).0,
        ],
    decreases k,
{
    if k > 0 {
        let first = spec_curve_indices(seed, n, block, len);
        lemma_plans_split(first.1, n, block, len, (k - 1) as nat);
        assert(spec_plans(seed, n, block, len, k + 1) =~= spec_plans(seed, n, block, len, k) + seq![
            spec_curve_indices(spec_plans_state(seed, n, block, len, k), n, block, len).0,
        ]);
    } else {
        assert(spec_plans(spec_curve_indices(seed, n, block, len).1, n, block, len, 0)
            =~= Seq::<Seq<usize>>::empty());
        assert(spec_plans(seed, n, block, len, 1) =~= seq![spec_curve_indices(seed, n, block, len).0]);
    }
}

/// The generator state after drawing `count` curves.
pub open spec fn spec_plans_state(state: u64, n: nat, block: nat, len: nat, count: nat) -> u64
    decreases count,
{
    if count == 0 {
        state
    } else {
        spec_plans_state(spec_curve_indices(state, n, block, len).1, n, block, len, (count - 1) as nat)
    }
}

proof fn lemma_plans_shape(state: u64, n: nat, block: nat, len: nat, count: nat, i: int)
    requires
        n > 0,
        block > 0,
        0 <= i < count,
    ensures
        spec_plans(state, n, block, len, count).len() == count,
        spec_plans(state, n, block, len, count)[i].len() == len,
        forall|j: int| 0 <= j < len ==> (#[trigger] spec_plans(state, n, block, len, count)[i][j]) < n,
    decreases count,
{
    let first = spec_curve_indices(state, n, block, len);
    lemma_curve_indices_shape(state, n, block, len);
    if i > 0 {
        lemma_plans_shape(first.1, n, block, len, (count - 1) as nat, i - 1);
        assert(spec_plans(state, n, block, len, count)[i] == spec_plans(first.1, n, block, len, (
        count - 1) as nat)[i - 1]);
    } else {
        if count > 1 {
            lemma_plans_shape(first.1, n, block, len, (count - 1) as nat, 0);
        } else {
            assert(spec_plans(first.1, n, block, len, 0) =~= Seq::<Seq<usize>>::empty());
        }
        assert(spec_plans(state, n, block, len, count)[0] == first.0);
    }
}

} // verus!
