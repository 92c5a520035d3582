use vstd::prelude::*;

use crate::onsets::window_end;
use crate::rng::{advance, draw, lemma_state_after_add, mix, state_after, Rng};

verus! {

/// How many frames of a slice sound, and how many of them fade in and out.
#[derive(Debug, Clone, Copy, PartialEq, Eq, Structural)]
pub struct Span {
    pub play: usize,
    pub fade: usize,
}

/// The fade length for `play` sounding frames: `fade_frames`, but at most half of `play`,
/// and never below one frame.
pub open spec fn fade_for(play: nat, fade_frames: nat) -> nat {
    vstd::math::max(1, vstd::math::min(fade_frames as int, (play / 2) as int)) as nat
}

/// The fade is the requested ramp, shortened to half of what sounds, but one frame at least:
/// it never exceeds the requested ramp (or one frame), nor half of what sounds (or one
/// frame), and a sound of two or more frames with a ramp of at least half its length fades
/// over exactly half.
pub proof fn lemma_fade_bounds(play: nat, fade_frames: nat)
    ensures
        1 <= fade_for(play, fade_frames),
        fade_for(play, fade_frames) <= vstd::math::max(1, fade_frames as int),
        fade_for(play, fade_frames) <= vstd::math::max(1, (play / 2) as int),
        fade_frames >= 1 && fade_frames <= play / 2 ==> fade_for(play, fade_frames) == fade_frames,
        play >= 2 && fade_frames >= play / 2 ==> fade_for(play, fade_frames) == play / 2,
{
}

fn fade_length(play: usize, fade_frames: usize) -> (f: usize)
    ensures
        f == fade_for(play as nat, fade_frames as nat),
        f == vstd::math::max(1, vstd::math::min(fade_frames as int, play as int / 2)),
{
    let half = play / 2;
    let f = if fade_frames < half {
        fade_frames
    } else {
        half
    };
    if f < 1 {
        1
    } else {
        f
    }
}

/// A grid hit that starts at `start` of an output of `total_frames` frames: nothing when it
/// would start past the end, else it sounds for its slot, cut to the slice and to the end.
pub fn grid_hit_span(
    start: usize,
    slot_frames: usize,
    slice_frames: usize,
    total_frames: usize,
    fade_frames: usize,
) -> (r: Option<Span>)
    ensures
        match r {
            None => start >= total_frames,
            Some(span) => {
                &&& start < total_frames
                &&& span.play == vstd::math::min(
                    vstd::math::min(slot_frames as int, slice_frames as int),
                    total_frames - start,
                )
                &&& span.fade == fade_for(span.play as nat, fade_frames as nat)
                &&& span.fade == vstd::math::max(
                    1,
                    vstd::math::min(fade_frames as int, span.play as int / 2),
                )
                &&& span.fade <= vstd::math::max(1, fade_frames as int)
                &&& start + span.play <= total_frames
                &&& 1 <= span.fade
                &&& span.play > 0 ==> span.fade <= span.play
            },
        },
{
    if start >= total_frames {
        return None;
    }
    let mut play = slot_frames;
    if slice_frames < play {
        play = slice_frames;
    }
    if total_frames - start < play {
        play = total_frames - start;
    }
    Some(Span { play, fade: fade_length(play, fade_frames) })
}

/// A template event over `start..end`: the slice rings until the next onset, cut to its
/// own length; nothing when no frame would sound.
pub fn template_span(start: usize, end: usize, slice_frames: usize, fade_frames: usize) -> (r:
    Option<Span>)
    requires
        start <= end,
    ensures
        match r {
            None => vstd::math::min(end - start, slice_frames as int) == 0,
            Some(span) => {
                &&& span.play == vstd::math::min(end - start, slice_frames as int)
                &&& span.play > 0
                &&& span.fade == fade_for(span.play as nat, fade_frames as nat)
                &&& span.fade == vstd::math::max(
                    1,
                    vstd::math::min(fade_frames as int, span.play as int / 2),
                )
                &&& span.fade <= vstd::math::max(1, fade_frames as int)
                &&& start + span.play <= end
                &&& 1 <= span.fade <= span.play
            },
        },
{
    let mut play = end - start;
    if slice_frames < play {
        play = slice_frames;
    }
    if play == 0 {
        return None;
    }
    Some(Span { play, fade: fade_length(play, fade_frames) })
}

/// The stretch of the template that each onset governs: from the onset to the next one, or
/// to the end of the template.
pub fn onset_windows(onsets: &Vec<usize>, frames: usize) -> (r: Vec<(usize, usize)>)
    ensures
        r@.len() == onsets@.len(),
        forall|k: int|
            0 <= k < r@.len() ==> #[trigger] r@[k] == (onsets@[k], window_end(onsets@, k, frames)),
{
    let mut windows: Vec<(usize, usize)> = Vec::new();
    let mut k: usize = 0;
    while k < onsets.len()
        invariant
            k <= onsets.len(),
            windows@.len() == k,
            forall|j: int|
                0 <= j < k ==> #[trigger] windows@[j] == (onsets@[j], window_end(onsets@, j, frames)),
        decreases onsets.len() - k,
    {
        let end = if k + 1 < onsets.len() {
            onsets[k + 1]
        } else {
            frames
        };
        windows.push((onsets[k], end));
        k = k + 1;
    }
    windows
}

/// Slice choices for template events from generator state `state`: each audible event
/// draws one number and takes the slice it names modulo the pool size; a silent event
/// draws nothing and places nothing.
pub open spec fn choices(state: u64, audible: Seq<bool>, pool_len: usize) -> (
    Seq<Option<usize>>,
    u64,
)
    decreases audible.len(),
{
    if audible.len() == 0 {
        (seq![], state)
    } else {
        let (p, s) = choices(state, audible.drop_last(), pool_len);
        if audible.last() {
            let s2 = advance(s);
            (p.push(Some((mix(s2) % (pool_len as u64)) as usize)), s2)
        } else {
            (p.push(None), s)
        }
    }
}

proof fn lemma_choices(state: u64, audible: Seq<bool>, pool_len: usize)
    requires
        pool_len > 0,
    ensures
        choices(state, audible, pool_len).0.len() == audible.len(),
        forall|k: int|
            0 <= k < audible.len() ==> (#[trigger] choices(state, audible, pool_len).0[k] matches Some(
                i
            ) ==> audible[k] && i < pool_len) && (audible[k] ==> choices(
                state,
                audible,
                pool_len,
            ).0[k] is Some),
    decreases audible.len(),
{
    if audible.len() > 0 {
        let a = audible.drop_last();
        lemma_choices(state, a, pool_len);
        let p = choices(state, a, pool_len).0;
        let q = choices(state, audible, pool_len).0;
        assert forall|k: int| 0 <= k < audible.len() implies (#[trigger] q[k] matches Some(i)
            ==> audible[k] && i < pool_len) && (audible[k] ==> q[k] is Some) by {
            if k < a.len() {
                assert(q[k] == p[k]);
                assert(a[k] == audible[k]);
            }
        }
    }
}

/// Picks, from `rng`, the pool slice placed at each template event; `audible[k]` tells
/// whether the template sounds at all over event `k`.
pub fn choose_slices(rng: &mut Rng, audible: &Vec<bool>, pool_len: usize) -> (r: Vec<Option<usize>>)
    requires
        pool_len > 0,
    ensures
        (r@, final(rng)@) == choices(old(rng)@, audible@, pool_len),
        r@.len() == audible@.len(),
        forall|k: int|
            0 <= k < r@.len() ==> (#[trigger] r@[k] matches Some(i) ==> audible@[k] && i
                < pool_len) && (audible@[k] ==> r@[k] is Some),
        chosen_by_draws(r@, audible@, old(rng)@, pool_len),
{
    let mut picks: Vec<Option<usize>> = Vec::new();
    let mut k: usize = 0;
    while k < audible.len()
        invariant
            k <= audible.len(),
            pool_len > 0,
            (picks@, rng@) == choices(old(rng)@, audible@.take(k as int), pool_len),
        decreases audible.len() - k,
    {
        assert(audible@.take(k + 1).drop_last() =~= audible@.take(k as int));
        if audible[k] {
            let idx = (rng.next_u64() % pool_len as u64) as usize;
            picks.push(Some(idx));
        } else {
            picks.push(None);
        }
        k = k + 1;
    }
    assert(audible@.take(k as int) =~= audible@);
    proof {
        lemma_choices(old(rng)@, audible@, pool_len);
        lemma_choices_follow_draws(old(rng)@, audible@, pool_len);
    }
    picks
}

/// The number of audible events.
pub open spec fn audible_count(audible: Seq<bool>) -> nat
    decreases audible.len(),
{
    if audible.len() == 0 {
        0
    } else {
        audible_count(audible.drop_last()) + if audible.last() {
            1nat
        } else {
            0nat
        }
    }
}

/// Choosing template slices draws from the generator exactly once per audible event.
pub proof fn lemma_choice_draws(state: u64, audible: Seq<bool>, pool_len: usize)
    ensures
        choices(state, audible, pool_len).1 == state_after(state, audible_count(audible)),
    decreases audible.len(),
{
    if audible.len() > 0 {
        let a = audible.drop_last();
        lemma_choice_draws(state, a, pool_len);
        if audible.last() {
            lemma_state_after_add(state, audible_count(a), 1);
            assert(state_after(choices(state, a, pool_len).1, 1) == advance(
                choices(state, a, pool_len).1,
            ));
        }
    }
}

/// Event `k` takes, when audible, the draw that follows one draw for each audible event
/// before it, modulo the pool size; a silent event takes nothing.
pub open spec fn chosen_by_draws(
    r: Seq<Option<usize>>,
    audible: Seq<bool>,
    seed: u64,
    pool_len: usize,
) -> bool {
    forall|k: int|
        0 <= k < audible.len() ==> #[trigger] r[k] == (if audible[k] {
            Some((draw(seed, audible_count(audible.take(k))) % (pool_len as u64)) as usize)
        } else {
            None
        })
}

/// Template slice choice in terms of the generator's stream.
pub proof fn lemma_choices_follow_draws(state: u64, audible: Seq<bool>, pool_len: usize)
    requires
        pool_len > 0,
    ensures
        chosen_by_draws(choices(state, audible, pool_len).0, audible, state, pool_len),
    decreases audible.len(),
{
    if audible.len() > 0 {
        let a = audible.drop_last();
        lemma_choices_follow_draws(state, a, pool_len);
        lemma_choice_draws(state, a, pool_len);
        lemma_choices(state, a, pool_len);
        let p = choices(state, a, pool_len).0;
        let q = choices(state, audible, pool_len).0;
        let last = a.len() as int;
        assert(audible.take(last) =~= a);
        let s = choices(state, a, pool_len).1;
        assert(state_after(state, audible_count(a) + 1) == advance(s));
        assert forall|k: int| 0 <= k < audible.len() implies #[trigger] q[k] == (if audible[k] {
            Some((draw(state, audible_count(audible.take(k))) % (pool_len as u64)) as usize)
        } else {
            None
        }) by {
            if k < last {
                assert(q[k] == p[k]);
                assert(audible.take(k) =~= a.take(k));
                assert(a[k] == audible[k]);
            }
        }
    }
}

} // verus!
