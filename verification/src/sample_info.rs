//! The recorded sound of a pipe, with its loop, and the pipes of the organ.
use crate::{NOTE_COUNT, REGISTER_COUNT};
use vstd::prelude::*;

verus! {

/// Stereo frames that a voice plays at a time.
pub const FRAME_COUNT: usize = 4;

/// Samples from the start of the loop that follow its end: sixteen frames and a
/// half.
pub const LOOP_OVERLAP: usize = 33;

/// A recorded pipe: interleaved stereo samples of type `S`, and the frames
/// between which the sound repeats, the second one excluded. The speed, of type
/// `R`, is the ratio by which the recording was resampled.
#[derive(Default, Clone, Debug)]
pub struct SampleInfo<S, R> {
    pub samples: Vec<S>,
    pub loop_start: usize,
    pub loop_end: usize,
    pub speed: R,
}

impl<S, R> SampleInfo<S, R> {
    /// The last frame before the end of the loop at which a chunk of four frames
    /// can start, when chunks follow each other from the first frame on and
    /// round the loop.
    pub open spec fn last_start(self) -> int {
        let len = self.loop_end - self.loop_start;
        if len % 4 == 0 {
            (self.loop_end - 1) / 4 * 4
        } else if len % 2 == 0 {
            (self.loop_end - 1) / 2 * 2
        } else {
            self.loop_end - 1
        }
    }

    /// A voice can play the sound for as long as it likes: the loop is as long
    /// as a chunk of frames, and every chunk lies inside the samples.
    pub open spec fn playable(self) -> bool {
        &&& self.loop_start + FRAME_COUNT <= self.loop_end
        &&& 2 * (self.last_start() + FRAME_COUNT) <= self.samples@.len()
    }

    /// Whether a voice can play the sound for as long as it likes.
    pub fn is_playable(&self) -> (playable: bool)
        ensures
            playable == self.playable(),
    {
        if self.loop_end < FRAME_COUNT || self.loop_start > self.loop_end - FRAME_COUNT {
            return false;
        }
        let loop_len: usize = self.loop_end - self.loop_start;
        let end: usize = self.loop_end - 1;
        let last: usize = if loop_len % 4 == 0 {
            end / 4 * 4
        } else if loop_len % 2 == 0 {
            end / 2 * 2
        } else {
            end
        };
        let len = self.samples.len();
        len >= 2 * FRAME_COUNT && last <= len / 2 - FRAME_COUNT
    }

    /// The samples that are left when everything after the frame at the end of
    /// the loop is cut off.
    pub open spec fn up_to_loop_end(self) -> Seq<S> {
        if 2 * self.loop_end + 2 < self.samples@.len() {
            self.samples@.take(2 * self.loop_end + 2)
        } else {
            self.samples@
        }
    }

    /// There are enough samples after the start of the loop to repeat them
    /// behind its end.
    pub open spec fn closable(self) -> bool {
        &&& 2 * self.loop_end + 2 <= usize::MAX
        &&& 2 * self.loop_start + LOOP_OVERLAP <= self.up_to_loop_end().len()
    }

    /// Whether there are enough samples to close the loop.
    pub fn is_closable(&self) -> (closable: bool)
        ensures
            closable == self.closable(),
    {
        if self.loop_end > (usize::MAX - 2) / 2 {
            return false;
        }
        let end: usize = self.loop_end * 2 + 2;
        let len: usize = if end < self.samples.len() {
            end
        } else {
            self.samples.len()
        };
        len >= LOOP_OVERLAP && self.loop_start <= (len - LOOP_OVERLAP) / 2
    }

    /// The samples of `self` with the loop closed.
    pub open spec fn closed_samples(self) -> Seq<S> {
        let kept = self.up_to_loop_end();
        kept + kept.subrange(2 * self.loop_start as int, 2 * self.loop_start + LOOP_OVERLAP)
    }

    /// Closes the loop: cuts the samples off behind the frame at its end, and
    /// repeats behind them what stands at its start.
    pub fn close_loop(&mut self)
        where S: Copy
        requires
            old(self).closable(),
        ensures
            final(self).samples@ == old(self).closed_samples(),
            final(self).loop_start == old(self).loop_start,
            final(self).loop_end == old(self).loop_end,
            final(self).speed == old(self).speed,
    {
        let ghost kept = self.up_to_loop_end();
        let start: usize = 2 * self.loop_start;
        self.samples.truncate(self.loop_end * 2 + 2);
        assert(self.samples@ =~= kept);
        assert(kept.len() == self.samples.len());
        let mut i: usize = 0;
        while i < LOOP_OVERLAP
            invariant
                i <= LOOP_OVERLAP,
                start + LOOP_OVERLAP <= kept.len() <= usize::MAX,
                self.samples@ == kept + kept.subrange(start as int, start + i),
                self.loop_start == old(self).loop_start,
                self.loop_end == old(self).loop_end,
                self.speed == old(self).speed,
            decreases LOOP_OVERLAP - i,
        {
            let sample = self.samples[start + i];
            self.samples.push(sample);
            assert(self.samples@ =~= kept + kept.subrange(start as int, start + i + 1));
            i = i + 1;
        }
    }
}

/// A sound whose loop was closed can be played exactly when its loop is no
/// shorter than a chunk and the recording holds the last frame at which a chunk
/// can start, or is at most 25 samples short of it.
pub proof fn law_closed_loop_plays<S, R>(before: SampleInfo<S, R>, after: SampleInfo<S, R>)
    requires
        before.closable(),
        after.samples@ == before.closed_samples(),
        after.loop_start == before.loop_start,
        after.loop_end == before.loop_end,
    ensures
        after.playable() <==> {
            &&& before.loop_start + FRAME_COUNT <= before.loop_end
            &&& 2 * before.last_start() <= before.samples@.len() + 25
        },
{
}

/// Two recordings with the same samples and the same loop make the same sound.
pub proof fn law_same_recording_same_sound<S, R>(
    first: SampleBank<S, R>,
    second: SampleBank<S, R>,
    register: int,
    note: int,
    one: SampleInfo<S, R>,
    other: SampleInfo<S, R>,
)
    requires
        one.samples@ == other.samples@,
        one.loop_start == other.loop_start,
        one.loop_end == other.loop_end,
        first.holds(register, note, one),
        second.holds(register, note, other),
    ensures
        first.sample(register, note)->0.samples@ == second.sample(register, note)->0.samples@,
        first.sample(register, note)->0.loop_start == second.sample(register, note)->0.loop_start,
        first.sample(register, note)->0.loop_end == second.sample(register, note)->0.loop_end,
        one.closable() == other.closable(),
{
}

/// The sounds of all pipes: for each register, one for each key that has a
/// recording.
pub struct SampleBank<S, R> {
    ranks: Vec<Vec<Option<SampleInfo<S, R>>>>,
}

impl<S, R> SampleBank<S, R> {
    /// The sound of a pipe.
    pub closed spec fn sample(self, register: int, note: int) -> Option<SampleInfo<S, R>> {
        self.ranks@[register]@[note]
    }

    /// There is a place for every pipe.
    pub closed spec fn wf(self) -> bool {
        &&& self.ranks@.len() == REGISTER_COUNT
        &&& forall|register: int|
            0 <= register < REGISTER_COUNT ==> (#[trigger] self.ranks@[register])@.len()
                == NOTE_COUNT
    }

    /// A bank without any sound.
    pub fn new() -> (bank: SampleBank<S, R>)
        ensures
            bank.wf(),
            forall|register: int, note: int|
                0 <= register < REGISTER_COUNT && 0 <= note < NOTE_COUNT ==> #[trigger] bank.sample(
                    register,
                    note,
                ) is None,
    {
        let mut ranks: Vec<Vec<Option<SampleInfo<S, R>>>> = Vec::new();
        while ranks.len() < REGISTER_COUNT
            invariant
                ranks@.len() <= REGISTER_COUNT,
                forall|register: int|
                    0 <= register < ranks@.len() ==> (#[trigger] ranks@[register])@.len()
                        == NOTE_COUNT,
                forall|register: int, note: int|
                    0 <= register < ranks@.len() && 0 <= note < NOTE_COUNT
                        ==> #[trigger] ranks@[register]@[note] is None,
            decreases REGISTER_COUNT - ranks@.len(),
        {
            let mut rank: Vec<Option<SampleInfo<S, R>>> = Vec::new();
            while rank.len() < NOTE_COUNT
                invariant
                    rank@.len() <= NOTE_COUNT,
                    forall|note: int| 0 <= note < rank@.len() ==> #[trigger] rank@[note] is None,
                decreases NOTE_COUNT - rank@.len(),
            {
                rank.push(None);
            }
            ranks.push(rank);
        }
        SampleBank { ranks }
    }

    /// `after` differs from `self` in the sound of one pipe at most.
    pub open spec fn replaced(
        self,
        after: SampleBank<S, R>,
        register: int,
        note: int,
        sample: Option<SampleInfo<S, R>>,
    ) -> bool {
        forall|r: int, n: int|
            0 <= r < REGISTER_COUNT && 0 <= n < NOTE_COUNT ==> #[trigger] after.sample(r, n)
                == if r == register && n == note {
                sample
            } else {
                self.sample(r, n)
            }
    }

    /// Gives a pipe its sound, or takes it away.
    pub fn set(&mut self, register: usize, note: usize, sample: Option<SampleInfo<S, R>>)
        requires
            old(self).wf(),
            register < REGISTER_COUNT,
            note < NOTE_COUNT,
        ensures
            final(self).wf(),
            forall|r: int, n: int|
                0 <= r < REGISTER_COUNT && 0 <= n < NOTE_COUNT ==> #[trigger] final(self).sample(
                    r,
                    n,
                ) == if r == register && n == note {
                    sample
                } else {
                    old(self).sample(r, n)
                },
            old(self).replaced(*final(self), register as int, note as int, sample),
    {
        self.ranks[register][note] = sample;
        assert forall|r: int, n: int|
            0 <= r < REGISTER_COUNT && 0 <= n < NOTE_COUNT implies #[trigger] self.sample(r, n)
            == if r == register && n == note {
            sample
        } else {
            old(self).sample(r, n)
        } by {}
    }

    /// The pipe has the sound of a recording, with its loop closed.
    pub open spec fn holds(self, register: int, note: int, info: SampleInfo<S, R>) -> bool {
        &&& self.sample(register, note) matches Some(sample)
        &&& sample.samples@ == info.closed_samples()
        &&& sample.loop_start == info.loop_start
        &&& sample.loop_end == info.loop_end
        &&& sample.speed == info.speed
    }

    /// Closes the loop of a recording and gives the sound to a pipe. Nothing
    /// changes when the loop cannot be closed.
    pub fn load(&mut self, register: usize, note: usize, info: SampleInfo<S, R>) -> (loaded: bool)
        where S: Copy
        requires
            old(self).wf(),
            register < REGISTER_COUNT,
            note < NOTE_COUNT,
        ensures
            final(self).wf(),
            loaded == info.closable(),
            loaded ==> final(self).holds(register as int, note as int, info),
            loaded ==> old(self).replaced(
                *final(self),
                register as int,
                note as int,
                final(self).sample(register as int, note as int),
            ),
            !loaded ==> *final(self) == *old(self),
            forall|r: int, n: int|
                0 <= r < REGISTER_COUNT && 0 <= n < NOTE_COUNT && !(loaded && r == register && n
                    == note) ==> #[trigger] final(self).sample(r, n) == old(self).sample(r, n),
    {
        let mut sound = info;
        if !sound.is_closable() {
            return false;
        }
        sound.close_loop();
        self.set(register, note, Some(sound));
        true
    }

    /// The sound of a pipe.
    pub fn get(&self, register: usize, note: usize) -> (sample: &Option<SampleInfo<S, R>>)
        requires
            self.wf(),
            register < REGISTER_COUNT,
            note < NOTE_COUNT,
        ensures
            *sample == self.sample(register as int, note as int),
    {
        &self.ranks[register][note]
    }
}

/// Closing a loop keeps the samples up to the frame at its end, and the first 33
/// samples of the loop follow behind them.
pub proof fn law_loop_is_closed<S, R>(info: SampleInfo<S, R>)
    requires
        info.closable(),
    ensures
        ({
            let end = 2 * info.loop_end + 2;
            let kept = if end < info.samples@.len() {
                end
            } else {
                info.samples@.len() as int
            };
            let closed = info.closed_samples();
            &&& closed.len() == kept + 33
            &&& forall|k: int| 0 <= k < kept ==> #[trigger] closed[k] == info.samples@[k]
            &&& forall|k: int|
                kept <= k < kept + 33 ==> #[trigger] closed[k] == info.samples@[2 * info.loop_start
                    + (k - kept)]
        }),
{
}

/// A loop can be closed when 33 samples follow its start, not counting those behind
/// the frame at its end.
pub proof fn law_closable_loops<S, R>(info: SampleInfo<S, R>)
    requires
        2 * info.loop_end + 2 <= usize::MAX,
    ensures
        info.closable() <==> {
            &&& 2 * info.loop_start + 33 <= info.samples@.len()
            &&& 2 * info.loop_start + 33 <= 2 * info.loop_end + 2
        },
{
}

/// A pipe that has the sound of a recording plays it with the recording's loop and
/// speed, and from the start as it was recorded.
pub proof fn law_pipe_has_recording<S, R>(
    bank: SampleBank<S, R>,
    register: int,
    note: int,
    info: SampleInfo<S, R>,
)
    requires
        info.closable(),
        bank.holds(register, note, info),
    ensures
        bank.sample(register, note) matches Some(sound) && {
            &&& sound.loop_start == info.loop_start
            &&& sound.loop_end == info.loop_end
            &&& sound.speed == info.speed
            &&& forall|k: int|
                0 <= k < info.samples@.len() && k < 2 * info.loop_end + 2
                    ==> #[trigger] sound.samples@[k] == info.samples@[k]
            &&& sound.samples@.subrange(sound.samples@.len() - 33, sound.samples@.len() as int)
                == info.samples@.subrange(
                2 * info.loop_start as int,
                2 * info.loop_start + 33,
            )
        },
{
    let sound = bank.sample(register, note)->0;
    law_loop_is_closed(info);
    assert(sound.samples@.subrange(sound.samples@.len() - 33, sound.samples@.len() as int)
        =~= info.samples@.subrange(2 * info.loop_start as int, 2 * info.loop_start + 33));
}

/// A pipe that gets a sound, or loses it, has what it was given, and every other pipe
/// what it had.
pub proof fn law_one_pipe_changes<S, R>(
    before: SampleBank<S, R>,
    after: SampleBank<S, R>,
    register: int,
    note: int,
    sample: Option<SampleInfo<S, R>>,
    other_register: int,
    other_note: int,
)
    requires
        before.replaced(after, register, note, sample),
        0 <= register < 128,
        0 <= note < 61,
        0 <= other_register < 128,
        0 <= other_note < 61,
        other_register != register || other_note != note,
    ensures
        after.sample(register, note) == sample,
        after.sample(other_register, other_note) == before.sample(other_register, other_note),
{
}

} // verus!
