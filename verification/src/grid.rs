use vstd::prelude::*;

use crate::rng::{advance, draw, lemma_state_after_add, mix, state_after, Rng};
use crate::text::{decimal, push_decimal};

verus! {

/// How a bar is cut into steps and how many steps the whole output has.
#[derive(Debug, Clone, Copy, PartialEq, Eq, Structural)]
pub struct GridLayout {
    pub steps_per_bar: usize,
    pub total_steps: usize,
}

/// The message given when a bar cannot be cut into whole steps.
pub open spec fn uneven_grid_text(num: u32, den: u32, resolution: u32) -> Seq<char> {
    "a "@ + decimal(num as nat) + "/"@ + decimal(den as nat) + " bar does not divide evenly into 1/"@
        + decimal(resolution as nat) + " steps; try a finer --resolution"@
}

/// Cuts `bars` bars of `num/den` time into steps of `1/resolution` notes.
pub fn grid_layout(num: u32, den: u32, resolution: u32, bars: u32) -> (r: Result<GridLayout, String>)
    requires
        den > 0,
        num * resolution <= u32::MAX,
        (num * resolution) / (den as int) * bars <= usize::MAX,
    ensures
        match r {
            Ok(g) => {
                &&& (num * resolution) % (den as int) == 0
                &&& g.steps_per_bar == num * resolution / (den as int)
                &&& g.total_steps == g.steps_per_bar * bars
                &&& g.steps_per_bar * den == num * resolution
            },
            Err(e) => (num * resolution) % (den as int) != 0 && e@ == uneven_grid_text(
                num,
                den,
                resolution,
            ),
        },
{
    let units = num * resolution;
    if units % den != 0 {
        let mut e = String::new();
        e.append("a ");
        push_decimal(&mut e, num as u128);
        e.append("/");
        push_decimal(&mut e, den as u128);
        e.append(" bar does not divide evenly into 1/");
        push_decimal(&mut e, resolution as u128);
        e.append(" steps; try a finer --resolution");
        return Err(e);
    }
    let steps_per_bar = (units / den) as usize;
    assert(steps_per_bar * den == units) by (nonlinear_arith)
        requires
            steps_per_bar == units as int / den as int,
            units as int % den as int == 0,
            den > 0,
    ;
    Ok(GridLayout { steps_per_bar, total_steps: steps_per_bar * (bars as usize) })
}

/// A fired grid step: which slice of the pool it plays and for how many grid steps.
#[derive(Debug, Clone, Copy, PartialEq, Eq, Structural)]
pub struct Hit {
    pub slice: usize,
    pub steps: usize,
}

/// One step of the pattern roll from generator state `state`: a draw whose top 24 bits
/// fall below `threshold` fires the step, and then two more draws pick the slice and the
/// length `1..=max_length`. Returns the step and the state after it.
pub open spec fn roll_step(state: u64, threshold: u32, pool_len: usize, max_length: u32) -> (
    Option<Hit>,
    u64,
) {
    let s1 = advance(state);
    if mix(s1) >> 40u64 < threshold {
        let s2 = advance(s1);
        let s3 = advance(s2);
        (
            Some(
                Hit {
                    slice: (mix(s2) % (pool_len as u64)) as usize,
                    steps: (mix(s3) % (max_length as u64) + 1) as usize,
                },
            ),
            s3,
        )
    } else {
        (None, s1)
    }
}

/// `n` consecutive pattern steps rolled from `state`, and the state after them.
pub open spec fn roll(state: u64, n: nat, threshold: u32, pool_len: usize, max_length: u32) -> (
    Seq<Option<Hit>>,
    u64,
)
    decreases n,
{
    if n == 0 {
        (seq![], state)
    } else {
        let (p, s) = roll(state, (n - 1) as nat, threshold, pool_len, max_length);
        let (h, s2) = roll_step(s, threshold, pool_len, max_length);
        (p.push(h), s2)
    }
}

/// Every fired step plays a slice of the pool for 1 to `max_length` steps.
pub open spec fn hits_in_range(p: Seq<Option<Hit>>, pool_len: usize, max_length: u32) -> bool {
    forall|i: int|
        0 <= i < p.len() ==> (#[trigger] p[i] matches Some(h) ==> h.slice < pool_len && 1
            <= h.steps <= max_length)
}

proof fn lemma_roll_in_range(state: u64, n: nat, threshold: u32, pool_len: usize, max_length: u32)
    requires
        pool_len > 0,
        max_length > 0,
    ensures
        roll(state, n, threshold, pool_len, max_length).0.len() == n,
        hits_in_range(roll(state, n, threshold, pool_len, max_length).0, pool_len, max_length),
    decreases n,
{
    if n > 0 {
        lemma_roll_in_range(state, (n - 1) as nat, threshold, pool_len, max_length);
        let (p, s) = roll(state, (n - 1) as nat, threshold, pool_len, max_length);
        let (h, s2) = roll_step(s, threshold, pool_len, max_length);
        let q = p.push(h);
        assert forall|i: int|
            0 <= i < q.len() implies (#[trigger] q[i] matches Some(x) ==> x.slice < pool_len && 1
            <= x.steps <= max_length) by {
            if i < p.len() {
                assert(q[i] == p[i]);
            }
        }
    }
}

fn roll_pattern(rng: &mut Rng, n: usize, threshold: u32, pool_len: usize, max_length: u32) -> (r:
    Vec<Option<Hit>>)
    requires
        pool_len > 0,
        max_length > 0,
    ensures
        (r@, final(rng)@) == roll(old(rng)@, n as nat, threshold, pool_len, max_length),
{
    let mut pattern: Vec<Option<Hit>> = Vec::with_capacity(n);
    let mut i: usize = 0;
    while i < n
        invariant
            i <= n,
            pool_len > 0,
            max_length > 0,
            (pattern@, rng@) == roll(old(rng)@, i as nat, threshold, pool_len, max_length),
        decreases n - i,
    {
        let ghost s = rng@;
        if rng.next_u64() >> 40 < threshold as u64 {
            let slice = (rng.next_u64() % pool_len as u64) as usize;
            let steps = (rng.next_u64() % max_length as u64) as usize + 1;
            pattern.push(Some(Hit { slice, steps }));
        } else {
            pattern.push(None);
        }
        assert(roll_step(s, threshold, pool_len, max_length) == (pattern@.last(), rng@));
        i = i + 1;
    }
    pattern
}

proof fn lemma_expand_plan(
    pattern: Seq<Option<Hit>>,
    n: nat,
    plan: Seq<Option<Hit>>,
    layout: GridLayout,
    repeat: bool,
    pool_len: usize,
    max_length: u32,
)
    requires
        pattern.len() == n,
        n > 0 || layout.total_steps == 0,
        n == (if repeat { layout.steps_per_bar as nat } else { layout.total_steps as nat }),
        plan.len() == layout.total_steps,
        forall|j: int| 0 <= j < plan.len() ==> #[trigger] plan[j] == pattern[j % (n as int)],
        hits_in_range(pattern, pool_len, max_length),
    ensures
        plan == Seq::new(layout.total_steps as nat, |s: int| pattern[s % (n as int)]),
        hits_in_range(plan, pool_len, max_length),
        repeat ==> forall|s: int|
            0 <= s < plan.len() ==> #[trigger] plan[s] == plan[s % (layout.steps_per_bar as int)],
{
    assert(plan =~= Seq::new(layout.total_steps as nat, |s: int| pattern[s % (n as int)]));
    assert forall|i: int| 0 <= i < plan.len() implies (#[trigger] plan[i] matches Some(h)
        ==> h.slice < pool_len && 1 <= h.steps <= max_length) by {
        let k = i % (n as int);
        assert(0 <= k < n);
        assert(plan[i] == pattern[k]);
    }
    if repeat {
        assert forall|j: int| 0 <= j < plan.len() implies #[trigger] plan[j] == plan[j % (
        layout.steps_per_bar as int)] by {
            let k = j % (n as int);
            assert(0 <= k < n && k <= j) by (nonlinear_arith)
                requires
                    n > 0,
                    j >= 0,
                    k == j % (n as int),
            ;
            assert(k % (n as int) == k) by (nonlinear_arith)
                requires
                    0 <= k < n,
            ;
            assert(plan[k] == pattern[k % (n as int)]);
        }
    }
}

/// The per-step plan of a grid: the pattern is rolled once per bar length when `repeat`
/// is set (one bar, played every bar), else once for every step; step `s` plays entry
/// `s % pattern length`.
pub open spec fn plan_spec(
    state: u64,
    layout: GridLayout,
    repeat: bool,
    threshold: u32,
    pool_len: usize,
    max_length: u32,
) -> (Seq<Option<Hit>>, u64) {
    let n: nat = if repeat {
        layout.steps_per_bar as nat
    } else {
        layout.total_steps as nat
    };
    let (pattern, after) = roll(state, n, threshold, pool_len, max_length);
    (Seq::new(layout.total_steps as nat, |s: int| pattern[s % (n as int)]), after)
}

/// Rolls the grid pattern from `rng` and lays it over every step of `layout`.
/// `threshold` is the number of 24-bit draws that count as a hit, `ceil(density * 2^24)`.
pub fn plan_grid(
    rng: &mut Rng,
    layout: GridLayout,
    repeat: bool,
    threshold: u32,
    pool_len: usize,
    max_length: u32,
) -> (r: Vec<Option<Hit>>)
    requires
        pool_len > 0,
        max_length > 0,
        layout.total_steps > 0 ==> layout.steps_per_bar > 0,
    ensures
        (r@, final(rng)@) == plan_spec(old(rng)@, layout, repeat, threshold, pool_len, max_length),
        r@.len() == layout.total_steps,
        hits_in_range(r@, pool_len, max_length),
        repeat ==> forall|s: int|
            0 <= s < r@.len() ==> #[trigger] r@[s] == r@[s % (layout.steps_per_bar as int)],
        follows_draws(
            r@.take(
                if repeat {
                    vstd::math::min(layout.steps_per_bar as int, r@.len() as int)
                } else {
                    r@.len() as int
                },
            ),
            old(rng)@,
            threshold,
            pool_len,
            max_length,
        ),
{
    let n = if repeat {
        layout.steps_per_bar
    } else {
        layout.total_steps
    };
    let pattern = roll_pattern(rng, n, threshold, pool_len, max_length);
    proof {
        lemma_roll_in_range(old(rng)@, n as nat, threshold, pool_len, max_length);
    }
    let mut plan: Vec<Option<Hit>> = Vec::with_capacity(layout.total_steps);
    let mut s: usize = 0;
    while s < layout.total_steps
        invariant
            s <= layout.total_steps,
            n > 0 || layout.total_steps == 0,
            pattern@.len() == n,
            forall|j: int| 0 <= j < s ==> #[trigger] plan@[j] == pattern@[j % (n as int)],
            plan@.len() == s,
        decreases layout.total_steps - s,
    {
        plan.push(pattern[s % n]);
        s = s + 1;
    }
    proof {
        lemma_expand_plan(pattern@, n as nat, plan@, layout, repeat, pool_len, max_length);
        lemma_roll_follows_draws(old(rng)@, n as nat, threshold, pool_len, max_length);
        let m: int = if repeat {
            vstd::math::min(layout.steps_per_bar as int, plan@.len() as int)
        } else {
            plan@.len() as int
        };
        assert(plan@.take(m) =~= pattern@.take(m)) by {
            assert forall|i: int| 0 <= i < m implies plan@[i] == pattern@[i] by {
                assert(i % (n as int) == i) by (nonlinear_arith)
                    requires
                        0 <= i < n,
                ;
            }
        }
        lemma_follows_prefix(pattern@, m, old(rng)@, threshold, pool_len, max_length);
    }
    plan
}

/// The number of fired steps in a pattern.
pub open spec fn hit_count(p: Seq<Option<Hit>>) -> nat
    decreases p.len(),
{
    if p.len() == 0 {
        0
    } else {
        hit_count(p.drop_last()) + if p.last() is Some {
            1nat
        } else {
            0nat
        }
    }
}

/// Rolling `n` pattern steps draws from the generator once per step and twice more for
/// every step that fires, and nothing else.
pub proof fn lemma_roll_draws(state: u64, n: nat, threshold: u32, pool_len: usize, max_length: u32)
    ensures
        roll(state, n, threshold, pool_len, max_length).1 == state_after(
            state,
            n + 2 * hit_count(roll(state, n, threshold, pool_len, max_length).0),
        ),
    decreases n,
{
    if n > 0 {
        lemma_roll_draws(state, (n - 1) as nat, threshold, pool_len, max_length);
        let (p, s) = roll(state, (n - 1) as nat, threshold, pool_len, max_length);
        let (h, s2) = roll_step(s, threshold, pool_len, max_length);
        let k: nat = (n - 1 + 2 * hit_count(p)) as nat;
        assert(p.push(h).drop_last() =~= p);
        if h is Some {
            assert(s2 == state_after(s, 3)) by {
                reveal_with_fuel(state_after, 4);
            }
            lemma_state_after_add(state, k, 3);
        } else {
            assert(s2 == state_after(s, 1)) by {
                reveal_with_fuel(state_after, 2);
            }
            lemma_state_after_add(state, k, 1);
        }
    }
}

/// Each step `j` of `p` makes its firing draw right after the draws of the steps before it
/// (one each, two more per hit) from a generator seeded with `seed`; it fires when the top
/// 24 bits of that draw fall below `threshold`, and then the next draw modulo the pool size
/// picks its slice and the one after, modulo `max_length` plus one, its length.
pub open spec fn follows_draws(
    p: Seq<Option<Hit>>,
    seed: u64,
    threshold: u32,
    pool_len: usize,
    max_length: u32,
) -> bool {
    forall|j: int|
        0 <= j < p.len() ==> {
            &&& (#[trigger] p[j] is Some <==> draw(seed, (j + 2 * hit_count(p.take(j))) as nat)
                >> 40u64 < threshold)
            &&& (p[j] matches Some(h) ==> h.slice == draw(
                seed,
                (j + 2 * hit_count(p.take(j)) + 1) as nat,
            ) % (pool_len as u64) && h.steps == draw(
                seed,
                (j + 2 * hit_count(p.take(j)) + 2) as nat,
            ) % (max_length as u64) + 1)
        }
}

/// The pattern roll in terms of the generator's stream: step `j` makes its firing draw right
/// after the draws of the steps before it (one each, two more per hit); it fires when the
/// top 24 bits of that draw fall below `threshold`, and then the next draw modulo the pool
/// size picks its slice and the one after modulo `max_length`, plus one, its length.
pub proof fn lemma_roll_follows_draws(
    state: u64,
    n: nat,
    threshold: u32,
    pool_len: usize,
    max_length: u32,
)
    requires
        pool_len > 0,
        max_length > 0,
    ensures
        follows_draws(roll(state, n, threshold, pool_len, max_length).0, state, threshold, pool_len, max_length),
    decreases n,
{
    if n > 0 {
        lemma_roll_follows_draws(state, (n - 1) as nat, threshold, pool_len, max_length);
        lemma_roll_draws(state, (n - 1) as nat, threshold, pool_len, max_length);
        let (p, s) = roll(state, (n - 1) as nat, threshold, pool_len, max_length);
        let (h, s2) = roll_step(s, threshold, pool_len, max_length);
        let q = p.push(h);
        lemma_roll_len(state, (n - 1) as nat, threshold, pool_len, max_length);
        let d: nat = (p.len() + 2 * hit_count(p)) as nat;
        assert(q.take(p.len() as int) =~= p);
        lemma_step_follows(state, d, threshold, pool_len, max_length);
        assert forall|j: int| 0 <= j < q.len() implies {
            &&& (#[trigger] q[j] is Some <==> draw(state, (j + 2 * hit_count(q.take(j))) as nat)
                >> 40u64 < threshold)
            &&& (q[j] matches Some(x) ==> x.slice == draw(
                state,
                (j + 2 * hit_count(q.take(j)) + 1) as nat,
            ) % (pool_len as u64) && x.steps == draw(
                state,
                (j + 2 * hit_count(q.take(j)) + 2) as nat,
            ) % (max_length as u64) + 1)
        } by {
            if j < p.len() {
                assert(q[j] == p[j]);
                assert(q.take(j) =~= p.take(j));
            }
        }
    }
}

proof fn lemma_step_follows(state: u64, d: nat, threshold: u32, pool_len: usize, max_length: u32)
    requires
        pool_len > 0,
        max_length > 0,
    ensures
        ({
            let (h, _) = roll_step(state_after(state, d), threshold, pool_len, max_length);
            &&& (h is Some <==> draw(state, d) >> 40u64 < threshold)
            &&& (h matches Some(x) ==> x.slice == draw(state, d + 1) % (pool_len as u64) && x.steps
                == draw(state, d + 2) % (max_length as u64) + 1)
        }),
{
    let s = state_after(state, d);
    assert(state_after(state, d + 1) == advance(s));
    assert(state_after(state, d + 2) == advance(advance(s)));
    assert(state_after(state, d + 3) == advance(advance(advance(s))));
    assert(draw(state, d) == mix(advance(s)));
    assert(draw(state, d + 1) == mix(advance(advance(s))));
    assert(draw(state, d + 2) == mix(advance(advance(advance(s)))));
}

proof fn lemma_follows_prefix(
    p: Seq<Option<Hit>>,
    m: int,
    seed: u64,
    threshold: u32,
    pool_len: usize,
    max_length: u32,
)
    requires
        0 <= m <= p.len(),
        follows_draws(p, seed, threshold, pool_len, max_length),
    ensures
        follows_draws(p.take(m), seed, threshold, pool_len, max_length),
{
    let t = p.take(m);
    assert forall|j: int| 0 <= j < t.len() implies t.take(j) =~= p.take(j) && t[j] == p[j] by {}
    assert forall|j: int| 0 <= j < t.len() implies #[trigger] t[j] == p[j] && t.take(j) == p.take(
        j,
    ) by {
        assert(t.take(j) =~= p.take(j));
    }
}

proof fn lemma_roll_len(state: u64, n: nat, threshold: u32, pool_len: usize, max_length: u32)
    ensures
        roll(state, n, threshold, pool_len, max_length).0.len() == n,
    decreases n,
{
    if n > 0 {
        lemma_roll_len(state, (n - 1) as nat, threshold, pool_len, max_length);
    }
}

} // verus!
