use vstd::prelude::*;

verus! {

/// Onset frames picked among the first `i` analysis blocks: block `j` (from 1 up) is
/// taken when it is a novelty peak and lies at least `min_gap` frames after the last
/// onset taken.
pub open spec fn picked(peaks: Seq<bool>, block: nat, min_gap: nat, i: nat) -> Seq<usize>
    decreases i,
{
    if i <= 1 {
        seq![]
    } else {
        let p = picked(peaks, block, min_gap, (i - 1) as nat);
        let j = (i - 1) as nat;
        let frame = j * block;
        if peaks[j as int] && (p.len() == 0 || frame - p.last() >= min_gap) {
            p.push(frame as usize)
        } else {
            p
        }
    }
}

/// The onsets of `frames` frames analysed in blocks of `block` frames, `peaks[j]` telling
/// whether block `j` is a peak of the novelty curve: none for no audio, frame 0 alone when
/// there are fewer than three blocks or no peak is taken, else the picked peaks (the first
/// and last block are never candidates).
pub open spec fn onsets_spec(frames: nat, block: nat, peaks: Seq<bool>, min_gap: nat) -> Seq<usize> {
    if frames == 0 {
        seq![]
    } else if frames / block < 3 {
        seq![0usize]
    } else {
        let p = picked(peaks, block, min_gap, (frames / block - 1) as nat);
        if p.len() == 0 {
            seq![0usize]
        } else {
            p
        }
    }
}

/// Onsets are block-aligned frames, strictly increasing, at least `min_gap` apart and
/// before `bound`.
pub open spec fn well_spaced(p: Seq<usize>, block: nat, min_gap: nat, bound: int) -> bool {
    &&& forall|k: int| 0 <= k < p.len() ==> #[trigger] p[k] < bound && p[k] as int % block as int == 0
    &&& forall|k: int|
        0 <= k < p.len() - 1 ==> p[k] < #[trigger] p[k + 1] && p[k + 1] - p[k] >= min_gap
}

proof fn lemma_picked(peaks: Seq<bool>, block: nat, min_gap: nat, i: nat)
    requires
        block > 0,
        i * block <= usize::MAX,
    ensures
        well_spaced(picked(peaks, block, min_gap, i), block, min_gap, (i * block) as int),
    decreases i,
{
    if i > 1 {
        let j = (i - 1) as nat;
        assert(j * block <= i * block) by (nonlinear_arith)
            requires
                j <= i,
        ;
        lemma_picked(peaks, block, min_gap, j);
        let p = picked(peaks, block, min_gap, j);
        let frame = j * block;
        assert(frame < i * block) by (nonlinear_arith)
            requires
                j + 1 == i,
                frame == j * block,
                block > 0,
        ;
        assert(frame as int % block as int == 0) by (nonlinear_arith)
            requires
                frame == j * block,
                block > 0,
        ;
        if peaks[j as int] && (p.len() == 0 || frame - p.last() >= min_gap) {
            let q = p.push(frame as usize);
            assert forall|k: int| 0 <= k < q.len() - 1 implies q[k] < #[trigger] q[k + 1] && q[k
                + 1] - q[k] >= min_gap by {
                if k + 1 < p.len() {
                    assert(q[k] == p[k] && q[k + 1] == p[k + 1]);
                }
            }
        }
    }
}

/// Greedy peak picking: every onset is a peak block strictly inside the analysed range
/// (`1 <= j < last`), and every such peak block that lies at least `min_gap` frames after
/// each onset before it is an onset.
pub open spec fn greedy_peaks(p: Seq<usize>, peaks: Seq<bool>, block: nat, min_gap: nat, last: int) -> bool {
    &&& forall|k: int|
        0 <= k < p.len() ==> 1 <= (#[trigger] p[k] as int) / (block as int) < last && peaks[(p[k] as int)
            / (block as int)]
    &&& forall|j: int|
        1 <= j < last && #[trigger] peaks[j] && (forall|k: int|
            0 <= k < p.len() && p[k] < j * block ==> j * block - p[k] >= min_gap) ==> p.contains(
            (j * block) as usize,
        )
}

/// Picking onsets from the first `i` blocks is greedy peak picking.
pub proof fn lemma_picked_greedy(peaks: Seq<bool>, block: nat, min_gap: nat, i: nat)
    requires
        block > 0,
        i * block <= usize::MAX,
        i <= peaks.len(),
    ensures
        greedy_peaks(picked(peaks, block, min_gap, i), peaks, block, min_gap, i as int),
    decreases i,
{
    if i > 1 {
        let j0 = (i - 1) as nat;
        assert(j0 * block <= i * block) by (nonlinear_arith)
            requires
                j0 <= i,
        ;
        lemma_picked_greedy(peaks, block, min_gap, j0);
        lemma_picked(peaks, block, min_gap, j0);
        let p = picked(peaks, block, min_gap, j0);
        let frame = j0 * block;
        assert((frame as int) / (block as int) == j0) by (nonlinear_arith)
            requires
                frame == j0 * block,
                block > 0,
        ;
        let q = picked(peaks, block, min_gap, i);
        assert forall|k: int| 0 <= k < q.len() implies 1 <= (#[trigger] q[k] as int) / (block as int)
            < i && peaks[(q[k] as int) / (block as int)] by {
            if k < p.len() {
                assert(q[k] == p[k]);
            }
        }
        assert forall|j: int|
            1 <= j < i && #[trigger] peaks[j] && (forall|k: int|
                0 <= k < q.len() && q[k] < j * block ==> j * block - q[k] >= min_gap) implies q.contains(
            (j * block) as usize,
        ) by {
            if j < j0 {
                assert(j * block < frame) by (nonlinear_arith)
                    requires
                        j < j0,
                        frame == j0 * block,
                        block > 0,
                ;
                assert forall|k: int| 0 <= k < p.len() && p[k] < j * block implies j * block - p[k]
                    >= min_gap by {
                    assert(q[k] == p[k]);
                }
                let w = choose|k: int| 0 <= k < p.len() && p[k] == (j * block) as usize;
                assert(q[w] == p[w]);
            } else {
                assert(j == j0);
                if p.len() > 0 {
                    assert(p.last() < frame);
                    assert(q.len() >= p.len());
                    let lk = p.len() - 1;
                    if q.len() > p.len() {
                    } else {
                        assert(q[lk] == p[lk]);
                    }
                }
                assert(q.last() == frame as usize);
            }
        }
    }
}

/// Picks onset frames from the per-block novelty peaks, as onset detection does after it
/// has computed its detection function.
pub fn pick_onsets(frames: usize, block: usize, peaks: &Vec<bool>, min_gap: usize) -> (r: Vec<usize>)
    requires
        block > 0,
        peaks.len() >= frames / block,
    ensures
        r@ == onsets_spec(frames as nat, block as nat, peaks@, min_gap as nat),
        r@.len() > 0 <==> frames > 0,
        well_spaced(r@, block as nat, min_gap as nat, frames as int),
        frames / block >= 3 ==> (r@ == seq![0usize] && forall|j: int|
            1 <= j < frames / block - 1 ==> !#[trigger] peaks@[j]) || greedy_peaks(
            r@,
            peaks@,
            block as nat,
            min_gap as nat,
            frames / block - 1,
        ),
{
    if frames == 0 {
        return Vec::new();
    }
    let nblocks = frames / block;
    if nblocks < 3 {
        let mut only = Vec::new();
        only.push(0usize);
        assert(only@ =~= seq![0usize]);
        assert(0int % block as int == 0) by (nonlinear_arith)
            requires
                block > 0,
        ;
        return only;
    }
    assert(nblocks * block <= frames) by (nonlinear_arith)
        requires
            nblocks == frames as int / block as int,
            block > 0,
    ;
    let mut onsets: Vec<usize> = Vec::new();
    let mut last: Option<usize> = None;
    let mut i: usize = 1;
    while i < nblocks - 1
        invariant
            block > 0,
            3 <= nblocks,
            nblocks * block <= frames,
            peaks.len() >= nblocks,
            1 <= i <= nblocks - 1,
            onsets@ == picked(peaks@, block as nat, min_gap as nat, i as nat),
            last == (if onsets@.len() == 0 {
                None::<usize>
            } else {
                Some(onsets@.last())
            }),
        decreases nblocks - 1 - i,
    {
        assert(i * block < nblocks * block) by (nonlinear_arith)
            requires
                i < nblocks,
                block > 0,
        ;
        assert((i + 1) * block <= nblocks * block) by (nonlinear_arith)
            requires
                i + 1 <= nblocks,
                block > 0,
        ;
        proof {
            lemma_picked(peaks@, block as nat, min_gap as nat, i as nat);
        }
        if peaks[i] {
            let frame = i * block;
            let far_enough = match last {
                None => true,
                Some(l) => frame - l >= min_gap,
            };
            if far_enough {
                onsets.push(frame);
                last = Some(frame);
            }
        }
        i = i + 1;
    }
    assert((nblocks - 1) * block <= usize::MAX) by (nonlinear_arith)
        requires
            nblocks * block <= frames,
            frames <= usize::MAX,
    ;
    proof {
        lemma_picked(peaks@, block as nat, min_gap as nat, (nblocks - 1) as nat);
        lemma_picked_greedy(peaks@, block as nat, min_gap as nat, (nblocks - 1) as nat);
        if onsets@.len() == 0 {
            assert forall|j: int| 1 <= j < nblocks - 1 implies !#[trigger] peaks@[j] by {
                if peaks@[j] {
                    assert(onsets@.contains((j * block) as usize));
                }
            }
        }
    }
    assert((nblocks - 1) * block <= frames) by (nonlinear_arith)
        requires
            nblocks * block <= frames,
            nblocks >= 3,
    ;
    if onsets.len() == 0 {
        onsets.push(0);
        assert(onsets@ =~= seq![0usize]);
        assert(0int % block as int == 0) by (nonlinear_arith)
            requires
                block > 0,
        ;
    }
    onsets
}

/// Where the stretch that starts at onset `k` ends: at the next onset, or at the end.
pub open spec fn window_end(onsets: Seq<usize>, k: int, frames: usize) -> usize {
    if k + 1 < onsets.len() {
        onsets[k + 1]
    } else {
        frames
    }
}

/// The slices cut at the first `k` onsets: from each onset to the next (or the end),
/// at most `max_slice` frames long and within the audio; empty ones are dropped.
pub open spec fn slices_upto(onsets: Seq<usize>, frames: usize, max_slice: usize, k: nat) -> Seq<
    (usize, usize),
>
    decreases k,
{
    if k == 0 {
        seq![]
    } else {
        let p = slices_upto(onsets, frames, max_slice, (k - 1) as nat);
        let start = onsets[k - 1];
        let end = vstd::math::min(
            vstd::math::min(window_end(onsets, k - 1, frames) as int, start + max_slice),
            frames as int,
        );
        if end > start {
            p.push((start, end as usize))
        } else {
            p
        }
    }
}

/// Each slice is a nonempty stretch of the audio of at most `max_slice` frames.
pub open spec fn slices_bounded(p: Seq<(usize, usize)>, frames: usize, max_slice: usize) -> bool {
    forall|i: int|
        0 <= i < p.len() ==> #[trigger] p[i].0 < p[i].1 <= frames && p[i].1 - p[i].0 <= max_slice
}

proof fn lemma_slices_bounded(onsets: Seq<usize>, frames: usize, max_slice: usize, k: nat)
    requires
        k <= onsets.len(),
    ensures
        slices_bounded(slices_upto(onsets, frames, max_slice, k), frames, max_slice),
        slices_upto(onsets, frames, max_slice, k).len() <= k,
    decreases k,
{
    if k > 0 {
        lemma_slices_bounded(onsets, frames, max_slice, (k - 1) as nat);
        let p = slices_upto(onsets, frames, max_slice, (k - 1) as nat);
        let q = slices_upto(onsets, frames, max_slice, k);
        assert forall|i: int| 0 <= i < q.len() implies #[trigger] q[i].0 < q[i].1 <= frames
            && q[i].1 - q[i].0 <= max_slice by {
            if i < p.len() {
                assert(q[i] == p[i]);
            }
        }
    }
}

/// The frame ranges that slicing cuts from audio of `frames` frames at `onsets`.
pub fn slice_bounds(onsets: &Vec<usize>, frames: usize, max_slice: usize) -> (r: Vec<(usize, usize)>)
    requires
        forall|k: int| 0 <= k < onsets.len() ==> #[trigger] onsets[k] + max_slice <= usize::MAX,
    ensures
        r@ == (if frames == 0 {
            seq![]
        } else {
            slices_upto(onsets@, frames, max_slice, onsets@.len())
        }),
        slices_bounded(r@, frames, max_slice),
        r@.len() <= onsets.len(),
        cut_at_every_onset(r@, onsets@, frames, max_slice),
{
    let mut slices: Vec<(usize, usize)> = Vec::new();
    if frames == 0 {
        proof {
            lemma_no_slices_of_nothing(onsets@, max_slice, onsets@.len());
        }
        return slices;
    }
    let mut k: usize = 0;
    while k < onsets.len()
        invariant
            k <= onsets.len(),
            forall|j: int| 0 <= j < onsets.len() ==> #[trigger] onsets[j] + max_slice <= usize::MAX,
            slices@ == slices_upto(onsets@, frames, max_slice, k as nat),
        decreases onsets.len() - k,
    {
        let start = onsets[k];
        let next = if k + 1 < onsets.len() {
            onsets[k + 1]
        } else {
            frames
        };
        let mut end = next;
        if start + max_slice < end {
            end = start + max_slice;
        }
        if frames < end {
            end = frames;
        }
        if end > start {
            slices.push((start, end));
        }
        k = k + 1;
    }
    proof {
        lemma_slices_bounded(onsets@, frames, max_slice, onsets@.len());
        lemma_slices_cut_at_onsets(onsets@, frames, max_slice, onsets@.len());
    }
    slices
}

/// Where the slice cut at onset `k` ends: at the next onset (or the end of the audio), at
/// most `max_slice` frames after the onset, and never past the audio.
pub open spec fn slice_end(onsets: Seq<usize>, frames: usize, max_slice: usize, k: int) -> int {
    let next: int = if k + 1 < onsets.len() {
        onsets[k + 1] as int
    } else {
        frames as int
    };
    let capped: int = if onsets[k] + max_slice < next {
        onsets[k] + max_slice
    } else {
        next
    };
    if frames < capped {
        frames as int
    } else {
        capped
    }
}

/// `r` has one slice for every onset whose slice is nonempty, in onset order: the slice of
/// onset `k` runs from the onset to its `slice_end`, and comes after the slices of the
/// onsets before it.
pub open spec fn cut_at_every_onset(
    r: Seq<(usize, usize)>,
    onsets: Seq<usize>,
    frames: usize,
    max_slice: usize,
) -> bool {
    &&& r.len() == nonempty_count_upto(onsets, frames, max_slice, onsets.len() as int)
    &&& forall|k: int|
        0 <= k < onsets.len() && #[trigger] slice_end(onsets, frames, max_slice, k) > onsets[k]
            ==> r[nonempty_count_upto(onsets, frames, max_slice, k) as int] == (
            onsets[k],
            slice_end(onsets, frames, max_slice, k) as usize,
        )
}

/// How many of the first `k` onsets give a nonempty slice, each judged with its real next
/// onset.
pub open spec fn nonempty_count_upto(
    onsets: Seq<usize>,
    frames: usize,
    max_slice: usize,
    k: int,
) -> nat
    decreases k,
{
    if k <= 0 {
        0
    } else {
        nonempty_count_upto(onsets, frames, max_slice, k - 1) + if slice_end(
            onsets,
            frames,
            max_slice,
            k - 1,
        ) > onsets[k - 1] {
            1nat
        } else {
            0nat
        }
    }
}

proof fn lemma_count_monotone(onsets: Seq<usize>, frames: usize, max_slice: usize, j: int, k: int)
    requires
        0 <= j <= k,
    ensures
        nonempty_count_upto(onsets, frames, max_slice, j) <= nonempty_count_upto(
            onsets,
            frames,
            max_slice,
            k,
        ),
    decreases k - j,
{
    if j < k {
        lemma_count_monotone(onsets, frames, max_slice, j, k - 1);
    }
}

/// Slicing cuts a slice at every onset whose slice is nonempty, in order.
pub proof fn lemma_slices_cut_at_onsets(onsets: Seq<usize>, frames: usize, max_slice: usize, k: nat)
    requires
        k <= onsets.len(),
    ensures
        slices_upto(onsets, frames, max_slice, k).len() == nonempty_count_upto(
            onsets,
            frames,
            max_slice,
            k as int,
        ),
        forall|j: int|
            0 <= j < k && #[trigger] slice_end(onsets, frames, max_slice, j) > onsets[j]
                ==> slices_upto(onsets, frames, max_slice, k)[nonempty_count_upto(
                onsets,
                frames,
                max_slice,
                j,
            ) as int] == (onsets[j], slice_end(onsets, frames, max_slice, j) as usize),
    decreases k,
{
    if k > 0 {
        lemma_slices_cut_at_onsets(onsets, frames, max_slice, (k - 1) as nat);
        let p = slices_upto(onsets, frames, max_slice, (k - 1) as nat);
        let q = slices_upto(onsets, frames, max_slice, k);
        let i = k - 1;
        assert(window_end(onsets, i, frames) as int == (if i + 1 < onsets.len() {
            onsets[i + 1] as int
        } else {
            frames as int
        }));
        assert forall|j: int|
            0 <= j < k && #[trigger] slice_end(onsets, frames, max_slice, j) > onsets[j] implies q[nonempty_count_upto(
            onsets,
            frames,
            max_slice,
            j,
        ) as int] == (onsets[j], slice_end(onsets, frames, max_slice, j) as usize) by {
            if j < i {
                lemma_count_monotone(onsets, frames, max_slice, j + 1, i);
                assert(q[nonempty_count_upto(onsets, frames, max_slice, j) as int] == p[nonempty_count_upto(onsets, frames, max_slice, j) as int]);
            }
        }
    }
}

proof fn lemma_no_slices_of_nothing(onsets: Seq<usize>, max_slice: usize, k: nat)
    requires
        k <= onsets.len(),
    ensures
        nonempty_count_upto(onsets, 0, max_slice, k as int) == 0,
    decreases k,
{
    if k > 0 {
        lemma_no_slices_of_nothing(onsets, max_slice, (k - 1) as nat);
    }
}

} // verus!
