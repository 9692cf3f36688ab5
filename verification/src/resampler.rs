//! Which frames a resampled frame is made of, and the shape of the resampled
//! sound. The weights of the frames are the caller's.
use crate::sample_info::SampleInfo;
use vstd::prelude::*;

verus! {

/// Frames that are weighed for each resampled frame.
pub const TAPS: usize = 256;

/// The frame that stands at `index` when the loop goes on for ever; there is
/// none before the first frame.
pub open spec fn looped_frame(index: int, loop_start: int, loop_end: int) -> Option<int> {
    if index < 0 {
        None
    } else if index < loop_start {
        Some(index)
    } else {
        Some(loop_start + (index - loop_start) % (loop_end - loop_start))
    }
}

/// The frame at a distance of `tap` from `center`, round the loop.
pub fn tap_frame(center: isize, tap: isize, loop_start: usize, loop_end: usize) -> (frame: Option<
    usize,
>)
    requires
        loop_start <= isize::MAX,
        loop_end <= isize::MAX,
        loop_start <= center + tap ==> loop_start < loop_end,
        isize::MIN <= center + tap <= isize::MAX,
    ensures
        match looped_frame(center + tap, loop_start as int, loop_end as int) {
            Some(expected) => frame == Some(expected as usize) && 0 <= expected <= isize::MAX,
            None => frame is None,
        },
{
    let mut index: isize = center + tap;
    if index >= loop_start as isize {
        let len: isize = (loop_end - loop_start) as isize;
        let ghost first = index - loop_start;
        let ghost mut turns: int = 0;
        while index >= loop_end as isize
            invariant
                loop_start < loop_end <= isize::MAX,
                len == loop_end - loop_start,
                loop_start <= index,
                first == turns * len + (index - loop_start),
            decreases index,
        {
            proof {
                assert((turns + 1) * len == turns * len + len) by (nonlinear_arith);
                turns = turns + 1;
            }
            index = index - len;
        }
        proof {
            vstd::arithmetic::div_mod::lemma_fundamental_div_mod_converse(
                first,
                len as int,
                turns,
                index - loop_start,
            );
        }
        Some(index as usize)
    } else if index < 0 {
        None
    } else {
        Some(index as usize)
    }
}

/// The first `count` taps round `center` that there is a frame for, each with
/// its frame.
pub open spec fn taps_before(center: int, loop_start: int, loop_end: int, count: int) -> Seq<
    (isize, usize),
>
    decreases count,
{
    if count <= 0 {
        Seq::empty()
    } else {
        let tap = count - 1 - TAPS / 2;
        let earlier = taps_before(center, loop_start, loop_end, count - 1);
        match looped_frame(center + tap, loop_start, loop_end) {
            Some(frame) => earlier.push((tap as isize, frame as usize)),
            None => earlier,
        }
    }
}

/// The taps round `center`, from the earliest to the latest, each with the
/// frame it falls on. Taps before the first frame are left out.
pub fn taps(center: isize, loop_start: usize, loop_end: usize) -> (found: Vec<(isize, usize)>)
    requires
        loop_start <= isize::MAX,
        loop_end <= isize::MAX,
        loop_start <= center + TAPS / 2 - 1 ==> loop_start < loop_end,
        isize::MIN + TAPS / 2 <= center,
        center + TAPS / 2 - 1 <= isize::MAX,
    ensures
        found@ == taps_before(center as int, loop_start as int, loop_end as int, TAPS as int),
{
    let half: isize = (TAPS / 2) as isize;
    let mut found: Vec<(isize, usize)> = Vec::with_capacity(TAPS);
    let mut tap: isize = -half;
    while tap < half
        invariant
            half == TAPS / 2,
            -half <= tap <= half,
            loop_start <= isize::MAX,
            loop_end <= isize::MAX,
            loop_start <= center + half - 1 ==> loop_start < loop_end,
            isize::MIN + half <= center,
            center + half - 1 <= isize::MAX,
            found@ == taps_before(
                center as int,
                loop_start as int,
                loop_end as int,
                tap + half,
            ),
        decreases half - tap,
    {
        if let Some(frame) = tap_frame(center, tap, loop_start, loop_end) {
            found.push((tap, frame));
        }
        tap = tap + 1;
    }
    found
}

/// A resampled sound: the frames, interleaved, with a loop of `loop_duration`
/// frames from `loop_start` on. There is a frame for every place up to the end
/// of the loop, and for the end itself.
pub fn resample<S: Copy, R>(
    frames: &Vec<[S; 2]>,
    loop_start: usize,
    loop_duration: usize,
    speed: R,
) -> (info: SampleInfo<S, R>)
    requires
        frames@.len() == loop_start + loop_duration + 1,
    ensures
        info.loop_start == loop_start,
        info.loop_end == loop_start + loop_duration,
        info.speed == speed,
        info.samples@.len() == 2 * (info.loop_end + 1),
        forall|frame: int, channel: int|
            0 <= frame <= info.loop_end && 0 <= channel < 2 ==> info.samples@[2 * frame + channel]
                == #[trigger] frames@[frame]@[channel],
        interleaves(frames@, info.samples@),
{
    let mut samples: Vec<S> = Vec::new();
    let mut i: usize = 0;
    while i < frames.len()
        invariant
            i <= frames@.len(),
            samples@.len() == 2 * i,
            forall|frame: int, channel: int|
                0 <= frame < i && 0 <= channel < 2 ==> samples@[2 * frame + channel]
                    == #[trigger] frames@[frame]@[channel],
        decreases frames@.len() - i,
    {
        samples.push(frames[i][0]);
        samples.push(frames[i][1]);
        i = i + 1;
    }
    SampleInfo { samples, loop_start, loop_end: loop_start + loop_duration, speed }
}

/// The samples are those of the frames, the channels of each frame side by side.
pub open spec fn interleaves<S>(frames: Seq<[S; 2]>, samples: Seq<S>) -> bool {
    &&& samples.len() == 2 * frames.len()
    &&& forall|frame: int, channel: int|
        0 <= frame < frames.len() && 0 <= channel < 2 ==> samples[2 * frame + channel]
            == #[trigger] frames[frame]@[channel]
}

/// The left channel of a frame comes first, the right one follows, and the frames keep
/// their order.
pub proof fn law_channels_alternate<S>(frames: Seq<[S; 2]>, samples: Seq<S>, frame: int)
    requires
        interleaves(frames, samples),
        0 <= frame < frames.len(),
    ensures
        samples.len() == 2 * frames.len(),
        samples[2 * frame] == frames[frame]@[0],
        samples[2 * frame + 1] == frames[frame]@[1],
{
    assert(samples[2 * frame + 0] == frames[frame]@[0]);
}

/// Every tap falls on a frame before the end of the loop.
pub proof fn law_taps_inside(center: int, loop_start: int, loop_end: int, count: int)
    requires
        0 <= loop_start < loop_end <= isize::MAX,
        count <= TAPS,
    ensures
        forall|i: int|
            0 <= i < taps_before(center, loop_start, loop_end, count).len() ==> (
            #[trigger] taps_before(center, loop_start, loop_end, count)[i]).1 < loop_end,
    decreases count,
{
    if count > 0 {
        law_taps_inside(center, loop_start, loop_end, count - 1);
        let index = center + (count - 1 - TAPS / 2) - loop_start;
        if index >= 0 {
            vstd::arithmetic::div_mod::lemma_mod_bound(index, loop_end - loop_start);
        }
        let earlier = taps_before(center, loop_start, loop_end, count - 1);
        let all = taps_before(center, loop_start, loop_end, count);
        assert forall|i: int| 0 <= i < all.len() implies (#[trigger] all[i]).1 < loop_end by {
            if i < earlier.len() {
                assert(all[i] == earlier[i]);
            }
        }
    }
}

/// A whole turn of the loop makes no difference: the frames behind the start of
/// the loop repeat.
pub proof fn law_loop_repeats(index: int, loop_start: int, loop_end: int, turns: nat)
    requires
        0 <= loop_start < loop_end,
        loop_start <= index,
    ensures
        looped_frame(index + turns * (loop_end - loop_start), loop_start, loop_end)
            == looped_frame(index, loop_start, loop_end),
{
    let len = loop_end - loop_start;
    assert(turns * len >= 0) by (nonlinear_arith)
        requires
            len > 0,
    ;
    vstd::arithmetic::div_mod::lemma_mod_multiples_vanish(
        turns as int,
        index - loop_start,
        len,
    );
    assert(len * turns == turns * len) by (nonlinear_arith);
}

/// What stands behind the end of the loop does not count: a frame that is
/// resampled reads the same from two recordings that agree up to there, however
/// far behind the loop its place lies.
pub proof fn law_only_loop_counts<S>(
    samples: Seq<S>,
    others: Seq<S>,
    center: int,
    loop_start: int,
    loop_end: int,
    count: int,
)
    requires
        0 <= loop_start < loop_end <= isize::MAX,
        count <= TAPS,
        2 * loop_end <= samples.len(),
        samples.take(2 * loop_end) == others.take(2 * loop_end),
        2 * loop_end <= others.len(),
    ensures
        forall|i: int|
            0 <= i < taps_before(center, loop_start, loop_end, count).len() ==> {
                let frame = (#[trigger] taps_before(center, loop_start, loop_end, count)[i]).1;
                &&& 2 * frame + 1 < 2 * loop_end
                &&& samples[2 * frame] == others[2 * frame]
                &&& samples[2 * frame + 1] == others[2 * frame + 1]
            },
{
    law_taps_inside(center, loop_start, loop_end, count);
    assert forall|i: int|
        0 <= i < taps_before(center, loop_start, loop_end, count).len() implies {
        let frame = (#[trigger] taps_before(center, loop_start, loop_end, count)[i]).1;
        &&& 2 * frame + 1 < 2 * loop_end
        &&& samples[2 * frame] == others[2 * frame]
        &&& samples[2 * frame + 1] == others[2 * frame + 1]
    } by {
        let at = 2 * taps_before(center, loop_start, loop_end, count)[i].1;
        let shared = samples.take(2 * loop_end);
        assert(shared[at] == samples[at] && shared[at + 1] == samples[at + 1]);
        assert(shared[at] == others[at] && shared[at + 1] == others[at + 1]);
    }
}

/// Once all its taps lie in the loop, a frame that is resampled is made of the
/// same frames, at the same distances, any number of turns later.
pub proof fn law_taps_repeat(
    center: int,
    loop_start: int,
    loop_end: int,
    turns: nat,
    count: int,
)
    requires
        0 <= loop_start < loop_end,
        loop_start <= center - TAPS / 2,
    ensures
        taps_before(center + turns * (loop_end - loop_start), loop_start, loop_end, count)
            == taps_before(center, loop_start, loop_end, count),
    decreases count,
{
    if count > 0 {
        let tap = count - 1 - TAPS / 2;
        law_taps_repeat(center, loop_start, loop_end, turns, count - 1);
        law_loop_repeats(center + tap, loop_start, loop_end, turns);
        assert(center + turns * (loop_end - loop_start) + tap == center + tap + turns * (loop_end
            - loop_start));
    }
}

/// A resampled sound whose loop is at least sixteen frames long can be closed,
/// and then played.
pub proof fn law_resampled_plays<S, R>(info: SampleInfo<S, R>, closed: SampleInfo<S, R>)
    requires
        info.samples@.len() == 2 * (info.loop_end + 1),
        info.samples@.len() <= usize::MAX,
        info.loop_start + 16 <= info.loop_end,
        closed.samples@ == info.closed_samples(),
        closed.loop_start == info.loop_start,
        closed.loop_end == info.loop_end,
    ensures
        info.closable(),
        closed.playable(),
{
    crate::sample_info::law_closed_loop_plays(info, closed);
}

/// The frame of a place: none before the first frame, the place itself up to the end
/// of the loop, and from there on the frame of the loop that is a whole number of
/// turns back.
pub proof fn law_frame_of_place(index: int, loop_start: int, loop_end: int)
    requires
        0 <= loop_start < loop_end,
    ensures
        index < 0 ==> looped_frame(index, loop_start, loop_end) is None,
        0 <= index < loop_end ==> looped_frame(index, loop_start, loop_end) == Some(index),
        index >= loop_start ==> {
            &&& looped_frame(index, loop_start, loop_end) matches Some(frame)
            &&& loop_start <= frame < loop_end
            &&& (index - frame) % (loop_end - loop_start) == 0
        },
{
    let len = loop_end - loop_start;
    if index >= loop_start {
        let at = index - loop_start;
        vstd::arithmetic::div_mod::lemma_fundamental_div_mod(at, len);
        vstd::arithmetic::div_mod::lemma_mod_bound(at, len);
        let frame = loop_start + at % len;
        assert(index - frame == len * (at / len));
        vstd::arithmetic::div_mod::lemma_mod_multiples_basic(at / len, len);
        assert((at / len) * len == len * (at / len)) by (nonlinear_arith);
        if index < loop_end {
            vstd::arithmetic::div_mod::lemma_small_mod(at as nat, len as nat);
        }
    }
}

/// A frame is made of 256 taps, from 128 before its place to 127 behind it, each with
/// its frame, in order; taps before the first frame are left out.
pub proof fn law_all_taps(center: int, loop_start: int, loop_end: int, count: int)
    requires
        0 <= loop_start < loop_end <= isize::MAX,
        0 <= count <= 256,
        -isize::MAX <= center <= isize::MAX,
    ensures
        ({
            let missing = if center >= 128 {
                0
            } else if 128 - center > count {
                count
            } else {
                128 - center
            };
            let found = taps_before(center, loop_start, loop_end, count);
            &&& found.len() == count - missing
            &&& forall|i: int|
                0 <= i < found.len() ==> {
                    let tap = i + missing - 128;
                    &&& (#[trigger] found[i]).0 == tap
                    &&& Some(found[i].1 as int) == looped_frame(center + tap, loop_start, loop_end)
                }
        }),
    decreases count,
{
    if count > 0 {
        law_all_taps(center, loop_start, loop_end, count - 1);
        let tap = count - 1 - 128;
        law_frame_of_place(center + tap, loop_start, loop_end);
        let missing = if center >= 128 {
            0
        } else if 128 - center > count {
            count
        } else {
            128 - center
        };
        let earlier = taps_before(center, loop_start, loop_end, count - 1);
        let found = taps_before(center, loop_start, loop_end, count);
        assert forall|i: int| 0 <= i < found.len() implies {
            let tap = i + missing - 128;
            &&& (#[trigger] found[i]).0 == tap
            &&& Some(found[i].1 as int) == looped_frame(center + tap, loop_start, loop_end)
        } by {
            if i < earlier.len() {
                assert(found[i] == earlier[i]);
            }
        }
    }
}

} // verus!
