//! The voices that sound, and what each of them adds to the output.
use crate::sample_info::{SampleBank, SampleInfo, FRAME_COUNT};
use crate::{NOTE_COUNT, REGISTER_COUNT};
use vstd::prelude::*;

verus! {

/// Chunks that a voice still plays once it fades out. Each of them multiplies
/// the volume by 0.998 four times, and the voice ends when the volume is no
/// more than 0.00002.
pub const FADE_CHUNKS: usize = 1352;

/// Voices that a pipe can have at a time: the one that was started last, and
/// those before it that still sound.
pub const VOICE_COUNT: usize = 16;

/// Samples of a chunk, of both channels.
pub const CHUNK_LEN: usize = 2 * FRAME_COUNT;

/// What the player asks of the sampler.
#[derive(Clone, Copy, Debug, PartialEq, Eq)]
pub enum SampleMessage {
    /// Start the pipe of this register and note.
    NewNote((u8, u8)),
    /// Let the pipe of this register and note fade out.
    Stop(u8, u8),
}

/// Four stereo frames of a voice: the samples of `sample_info` from `start` on,
/// faded by as many chunks as `fade` says.
pub struct Chunk<'a, S, R> {
    pub sample_info: &'a SampleInfo<S, R>,
    pub start: usize,
    pub fade: Option<usize>,
}

/// A chunk, and which chunk of the output it is added to.
pub struct Mix<'a, S, R> {
    pub out: usize,
    pub chunk: Chunk<'a, S, R>,
}

/// A voice: a sound that is being played.
pub struct Samples<'a, S, R> {
    pub sample_info: &'a SampleInfo<S, R>,
    /// The frame that comes next.
    pub index: usize,
    /// The chunks that were played since the voice began to fade out.
    pub fade_steps: usize,
    pub fade_out: bool,
}

impl<'a, S, R> Samples<'a, S, R> {
    /// The voice at the start of a sound.
    pub open spec fn started(sample_info: &'a SampleInfo<S, R>) -> Self {
        Samples { sample_info, index: 0, fade_steps: 0, fade_out: false }
    }

    /// The voice has faded out.
    pub open spec fn ended(self) -> bool {
        self.fade_steps >= FADE_CHUNKS
    }

    /// The next chunk lies inside the samples, and where it reaches the end of
    /// the loop there is a loop to go round.
    pub open spec fn readable(self) -> bool {
        &&& 2 * self.index + CHUNK_LEN <= self.sample_info.samples@.len()
        &&& self.index + FRAME_COUNT >= self.sample_info.loop_end ==> self.sample_info.loop_start
            <= self.sample_info.loop_end
    }

    /// The voice has not faded for longer than it can.
    pub open spec fn wf(self) -> bool {
        self.fade_steps <= FADE_CHUNKS
    }

    /// The voice plays a playable sound and stands before the end of its loop,
    /// at a frame that a chunk can start at.
    pub open spec fn steady(self) -> bool {
        let loop_len = self.sample_info.loop_end - self.sample_info.loop_start;
        &&& self.sample_info.playable()
        &&& self.index < self.sample_info.loop_end
        &&& loop_len % 4 == 0 ==> self.index % 4 == 0
        &&& loop_len % 2 == 0 ==> self.index % 2 == 0
    }

    /// The next chunk.
    pub open spec fn chunk(self) -> Chunk<'a, S, R> {
        Chunk {
            sample_info: self.sample_info,
            start: (2 * self.index) as usize,
            fade: if self.fade_out {
                Some(self.fade_steps)
            } else {
                None
            },
        }
    }

    /// The voice after the next chunk.
    pub open spec fn advanced(self) -> Self {
        let index = self.index + FRAME_COUNT;
        Samples {
            index: if index >= self.sample_info.loop_end {
                (index - (self.sample_info.loop_end - self.sample_info.loop_start)) as usize
            } else {
                index as usize
            },
            fade_steps: if self.fade_out {
                (self.fade_steps + 1) as usize
            } else {
                self.fade_steps
            },
            ..self
        }
    }

    /// The voice after `count` chunks.
    pub open spec fn played(self, count: nat) -> Self
        decreases count,
    {
        if count == 0 {
            self
        } else {
            self.played((count - 1) as nat).advanced()
        }
    }

    /// The next `count` chunks lie inside the samples.
    pub open spec fn reads(self, count: int) -> bool {
        forall|k: nat| k < count ==> #[trigger] self.played(k).readable()
    }

    /// How many of `wanted` chunks the voice plays before it ends.
    pub open spec fn chunk_count(self, wanted: int) -> int {
        let left = FADE_CHUNKS - self.fade_steps;
        if (self.fade_out || self.ended()) && left < wanted {
            left
        } else {
            wanted
        }
    }

    /// The first `count` chunks of the voice, each for the chunk of the output
    /// in its place.
    pub open spec fn mixes(self, count: int) -> Seq<Mix<'a, S, R>> {
        Seq::new(
            count as nat,
            |k: int| Mix { out: k as usize, chunk: self.played(k as nat).chunk() },
        )
    }

    /// A voice at the start of a sound.
    pub fn new(sample_info: &'a SampleInfo<S, R>) -> (voice: Self)
        ensures
            voice == Self::started(sample_info),
    {
        Samples { sample_info, index: 0, fade_steps: 0, fade_out: false }
    }

    /// The next chunk of the voice, or `None` when it has faded out.
    pub fn next(&mut self) -> (chunk: Option<Chunk<'a, S, R>>)
        requires
            !old(self).ended() ==> old(self).readable(),
        ensures
            old(self).ended() ==> chunk is None && *final(self) == *old(self),
            !old(self).ended() ==> chunk == Some(old(self).chunk()) && *final(self) == old(
                self,
            ).advanced(),
    {
        if self.fade_steps >= FADE_CHUNKS {
            return None;
        }
        let index = self.index;
        assert(2 * index + CHUNK_LEN <= self.sample_info.samples.len());
        self.index = self.index + FRAME_COUNT;
        if self.index >= self.sample_info.loop_end {
            self.index = self.index - (self.sample_info.loop_end - self.sample_info.loop_start);
        }
        let fade: Option<usize> = if self.fade_out {
            let steps = self.fade_steps;
            self.fade_steps = steps + 1;
            Some(steps)
        } else {
            None
        };
        Some(Chunk { sample_info: self.sample_info, start: index * 2, fade })
    }

    /// Whether the next chunk lies inside the samples.
    fn is_readable(&self) -> (readable: bool)
        ensures
            readable == self.readable(),
    {
        let len = self.sample_info.samples.len();
        len >= CHUNK_LEN && self.index <= (len - CHUNK_LEN) / 2 && (self.index + FRAME_COUNT
            < self.sample_info.loop_end || self.sample_info.loop_start
            <= self.sample_info.loop_end)
    }

    /// A steady voice stays so, and can be read.
    proof fn lemma_steady(self)
        requires
            self.steady(),
        ensures
            self.readable(),
            self.advanced().steady(),
    {
        let info = self.sample_info;
        lemma_next_start(self.index as int, info.loop_start as int, info.loop_end as int);
        assert(info.samples@.len() == info.samples.len());
    }

    /// A steady voice stays so for ever.
    proof fn lemma_steady_played(self, count: nat)
        requires
            self.steady(),
        ensures
            self.played(count).steady(),
        decreases count,
    {
        if count > 0 {
            self.lemma_steady_played((count - 1) as nat);
            self.played((count - 1) as nat).lemma_steady();
        }
    }

    /// A steady voice can always be read.
    proof fn lemma_steady_reads(self, count: int)
        requires
            self.steady(),
        ensures
            self.reads(count),
    {
        assert forall|k: nat| k < count implies #[trigger] self.played(k).readable() by {
            self.lemma_steady_played(k);
            self.played(k).lemma_steady();
        }
    }

    /// What stays, and how far the voice has faded after `count` chunks.
    proof fn lemma_played(self, count: nat)
        requires
            self.wf(),
            count <= self.chunk_count(count as int),
        ensures
            self.played(count).wf(),
            self.played(count).sample_info == self.sample_info,
            self.played(count).fade_out == self.fade_out,
            self.played(count).fade_steps == self.fade_steps + if self.fade_out {
                count as int
            } else {
                0
            },
        decreases count,
    {
        if count > 0 {
            self.lemma_played((count - 1) as nat);
        }
    }

    /// Plays up to `wanted` chunks and appends them to `mix`; returns how many
    /// there were. Where one of them does not lie inside the samples, there is
    /// nothing to return, and nothing changes.
    fn play(&mut self, wanted: usize, mix: &mut Vec<Mix<'a, S, R>>) -> (count: Option<usize>)
        requires
            old(self).wf(),
        ensures
            final(self).wf(),
            match count {
                Some(count) => {
                    &&& count == old(self).chunk_count(wanted as int)
                    &&& old(self).reads(count as int)
                    &&& *final(self) == old(self).played(count as nat)
                    &&& final(mix)@ == old(mix)@ + old(self).mixes(count as int)
                },
                None => {
                    &&& !old(self).reads(old(self).chunk_count(wanted as int))
                    &&& *final(self) == *old(self)
                    &&& final(mix)@ == old(mix)@
                },
            },
    {
        let index = self.index;
        let fade_steps = self.fade_steps;
        let mixed = mix.len();
        let mut count: usize = 0;
        assert(mix@ =~= old(mix)@ + old(self).mixes(0));
        while count < wanted
            invariant
                old(self).wf(),
                index == old(self).index,
                fade_steps == old(self).fade_steps,
                mixed == old(mix)@.len(),
                count <= wanted,
                count <= old(self).chunk_count(count as int),
                old(self).reads(count as int),
                *self == old(self).played(count as nat),
                mix@ == old(mix)@ + old(self).mixes(count as int),
            decreases wanted - count,
        {
            proof {
                old(self).lemma_played(count as nat);
            }
            if self.fade_steps < FADE_CHUNKS && !self.is_readable() {
                self.index = index;
                self.fade_steps = fade_steps;
                mix.truncate(mixed);
                assert(mix@ =~= old(mix)@);
                assert(!old(self).played(count as nat).readable());
                return None;
            }
            match self.next() {
                None => {
                    return Some(count);
                },
                Some(chunk) => {
                    mix.push(Mix { out: count, chunk });
                    assert(mix@ =~= old(mix)@ + old(self).mixes(count + 1));
                    assert(old(self).reads(count + 1));
                    count = count + 1;
                },
            }
        }
        proof {
            old(self).lemma_played(count as nat);
        }
        Some(count)
    }
}

/// Where the table of voices keeps the voice `slot` of a pipe. The table has a
/// row for each of the first `NOTE_COUNT` registers.
pub open spec fn slot_index(register: int, note: int, slot: int) -> int {
    (register * 128 + note) * 16 + slot
}

/// The place of an entry of the list of active voices.
pub open spec fn entry_index(entry: (usize, usize, usize)) -> int {
    slot_index(entry.0 as int, entry.1 as int, entry.2 as int)
}

/// The entry names a place of the table of voices.
pub open spec fn entry_in_table(entry: (usize, usize, usize)) -> bool {
    &&& entry.0 < NOTE_COUNT
    &&& entry.1 < REGISTER_COUNT
    &&& entry.2 < VOICE_COUNT
}

/// The length of the table of voices.
pub open spec fn table_len() -> int {
    61int * 128 * 16
}

/// The first free place of a pipe from `slot` on.
pub open spec fn free_slot<'a, S, R>(
    voices: Seq<Option<Samples<'a, S, R>>>,
    register: int,
    note: int,
    slot: int,
) -> Option<int>
    decreases VOICE_COUNT - slot,
{
    if slot >= VOICE_COUNT {
        None
    } else if voices[slot_index(register, note, slot)] is None {
        Some(slot)
    } else {
        free_slot(voices, register, note, slot + 1)
    }
}

/// The entry stands somewhere in the list.
pub open spec fn listed(active: Seq<(usize, usize, usize)>, index: int) -> bool {
    exists|j: int| 0 <= j < active.len() && entry_index(#[trigger] active[j]) == index
}

/// The table of voices and the list of those that sound, in the order in which
/// they are mixed.
pub struct SamplerState<'a, S, R> {
    pub voices: Seq<Option<Samples<'a, S, R>>>,
    pub active: Seq<(usize, usize, usize)>,
}

impl<'a, S, R> SamplerState<'a, S, R> {
    /// Every voice is well-formed and is listed, and the list names places of
    /// the table.
    pub open spec fn wf(self) -> bool {
        &&& self.voices.len() == table_len()
        &&& forall|i: int|
            0 <= i < table_len() ==> (#[trigger] self.voices[i] matches Some(voice) ==> {
                &&& voice.wf()
                &&& listed(self.active, i)
            })
        &&& forall|j: int| 0 <= j < self.active.len() ==> entry_in_table(#[trigger] self.active[j])
    }

    /// The pipe starts: its new voice takes the first place. A voice that was
    /// there moves to the first free place of the pipe, or is dropped when
    /// there is none.
    pub open spec fn new_note(
        self,
        register: usize,
        note: usize,
        sample_info: &'a SampleInfo<S, R>,
    ) -> Self {
        let first = slot_index(register as int, note as int, 0);
        let started = Some(Samples::started(sample_info));
        match (self.voices[first], free_slot(self.voices, register as int, note as int, 1)) {
            (Some(voice), Some(slot)) => SamplerState {
                voices: self.voices.update(
                    slot_index(register as int, note as int, slot),
                    Some(voice),
                ).update(first, started),
                active: self.active.push((register, note, slot as usize)),
            },
            _ => SamplerState {
                voices: self.voices.update(first, started),
                active: self.active.push((register, note, 0)),
            },
        }
    }

    /// The voice that was started last begins to fade out.
    pub open spec fn stop(self, register: int, note: int) -> Self {
        let first = slot_index(register, note, 0);
        match self.voices[first] {
            Some(voice) => SamplerState {
                voices: self.voices.update(
                    first,
                    Some(Samples { fade_out: true, ..voice }),
                ),
                ..self
            },
            None => self,
        }
    }
}

/// The state after a buffer was filled, and what was mixed into it.
pub struct Rendered<'a, S, R> {
    pub state: SamplerState<'a, S, R>,
    pub mix: Seq<Mix<'a, S, R>>,
}

/// The voices of `active`, one after the other, fill a buffer of `len` samples.
/// A voice that fills all of it stays; any other is taken out of the table, and
/// its entry off the list.
pub open spec fn rendered<'a, S, R>(
    voices: Seq<Option<Samples<'a, S, R>>>,
    active: Seq<(usize, usize, usize)>,
    len: int,
) -> Rendered<'a, S, R>
    decreases active.len(),
{
    if active.len() == 0 {
        Rendered { state: SamplerState { voices, active: Seq::empty() }, mix: Seq::empty() }
    } else {
        let before = rendered(voices, active.drop_last(), len);
        let entry = active.last();
        let index = entry_index(entry);
        match before.state.voices[index] {
            None => before,
            Some(voice) => {
                let count = voice.chunk_count(len / CHUNK_LEN as int);
                Rendered {
                    state: if count * CHUNK_LEN == len {
                        SamplerState {
                            voices: before.state.voices.update(
                                index,
                                Some(voice.played(count as nat)),
                            ),
                            active: before.state.active.push(entry),
                        }
                    } else {
                        SamplerState {
                            voices: before.state.voices.update(index, None),
                            active: before.state.active,
                        }
                    },
                    mix: before.mix + voice.mixes(count),
                }
            },
        }
    }
}

/// Every chunk that the voices of `active` play into a buffer of `len` samples
/// lies inside the samples of its sound.
pub open spec fn renders<'a, S, R>(
    voices: Seq<Option<Samples<'a, S, R>>>,
    active: Seq<(usize, usize, usize)>,
    len: int,
) -> bool
    decreases active.len(),
{
    if active.len() == 0 {
        true
    } else {
        let before = rendered(voices, active.drop_last(), len);
        &&& renders(voices, active.drop_last(), len)
        &&& before.state.voices[entry_index(active.last())] matches Some(voice) ==> voice.reads(
            voice.chunk_count(len / CHUNK_LEN as int),
        )
    }
}

/// Plays the sounds of a bank.
pub struct Sampler<'a, S, R> {
    sample_info: &'a SampleBank<S, R>,
    active_voices: Vec<Option<Samples<'a, S, R>>>,
    active_voice_indices: Vec<(usize, usize, usize)>,
}

impl<'a, S, R> View for Sampler<'a, S, R> {
    type V = SamplerState<'a, S, R>;

    closed spec fn view(&self) -> SamplerState<'a, S, R> {
        SamplerState { voices: self.active_voices@, active: self.active_voice_indices@ }
    }
}

impl<'a, S, R> Sampler<'a, S, R> {
    /// The sounds that are played.
    pub closed spec fn bank(self) -> SampleBank<S, R> {
        *self.sample_info
    }

    pub open spec fn wf(self) -> bool {
        &&& self.bank().wf()
        &&& self@.wf()
    }

    /// The message names a pipe of the bank, and one that the table of voices
    /// has a row for, as far as there is a voice to look up.
    pub open spec fn accepts(self, message: SampleMessage) -> bool {
        match message {
            SampleMessage::NewNote((register, note)) => {
                &&& register < REGISTER_COUNT
                &&& note < NOTE_COUNT
                &&& self.bank().sample(register as int, note as int) is Some ==> register
                    < NOTE_COUNT
            },
            SampleMessage::Stop(register, note) => register < NOTE_COUNT && note < REGISTER_COUNT,
        }
    }

    /// A sampler without any voice.
    pub fn new(sample_info: &'a SampleBank<S, R>) -> (sampler: Self)
        requires
            sample_info.wf(),
        ensures
            sampler.wf(),
            sampler.bank() == *sample_info,
            forall|i: int| 0 <= i < table_len() ==> #[trigger] sampler@.voices[i] is None,
            sampler@.active == Seq::<(usize, usize, usize)>::empty(),
            sampler@.tidy(),
    {
        let mut active_voices: Vec<Option<Samples<'a, S, R>>> = Vec::new();
        while active_voices.len() < 61 * 128 * 16
            invariant
                active_voices@.len() <= 61 * 128 * 16,
                forall|i: int|
                    0 <= i < active_voices@.len() ==> #[trigger] active_voices@[i] is None,
            decreases 61 * 128 * 16 - active_voices@.len(),
        {
            active_voices.push(None);
        }
        Sampler { sample_info, active_voices, active_voice_indices: Vec::new() }
    }

    /// Whether the sampler can handle the message.
    pub fn is_accepted(&self, message: SampleMessage) -> (accepted: bool)
        requires
            self.wf(),
        ensures
            accepted == self.accepts(message),
    {
        match message {
            SampleMessage::NewNote((register, note)) => {
                if register as usize >= REGISTER_COUNT || note as usize >= NOTE_COUNT {
                    return false;
                }
                self.sample_info.get(register as usize, note as usize).is_none() || (
                register as usize) < NOTE_COUNT
            },
            SampleMessage::Stop(register, note) => (register as usize) < NOTE_COUNT && (
            note as usize) < REGISTER_COUNT,
        }
    }

    /// The first free place of a pipe, its first one apart.
    fn find_free_slot(&self, register: usize, note: usize) -> (slot: Option<usize>)
        requires
            self@.voices.len() == table_len(),
            register < NOTE_COUNT,
            note < REGISTER_COUNT,
        ensures
            match slot {
                Some(x) => free_slot(self@.voices, register as int, note as int, 1) == Some(
                    x as int,
                ) && 1 <= x < VOICE_COUNT && self@.voices[slot_index(
                    register as int,
                    note as int,
                    x as int,
                )] is None,
                None => free_slot(self@.voices, register as int, note as int, 1) is None,
            },
    {
        let mut x: usize = 1;
        while x < VOICE_COUNT
            invariant
                1 <= x <= VOICE_COUNT,
                self@.voices.len() == table_len(),
                register < NOTE_COUNT,
                note < REGISTER_COUNT,
                free_slot(self@.voices, register as int, note as int, 1) == free_slot(
                    self@.voices,
                    register as int,
                    note as int,
                    x as int,
                ),
            decreases VOICE_COUNT - x,
        {
            if self.active_voices[(register * 128 + note) * 16 + x].is_none() {
                return Some(x);
            }
            x = x + 1;
        }
        None
    }

    /// Starts a pipe or lets it fade out.
    pub fn receive(&mut self, message: SampleMessage)
        requires
            old(self).wf(),
            old(self).accepts(message),
        ensures
            final(self).wf(),
            final(self).bank() == old(self).bank(),
            match message {
                SampleMessage::NewNote((register, note)) => match old(self).bank().sample(
                    register as int,
                    note as int,
                ) {
                    Some(info) => final(self)@ == old(self)@.new_note(
                        register as usize,
                        note as usize,
                        &info,
                    ),
                    None => final(self)@ == old(self)@,
                },
                SampleMessage::Stop(register, note) => final(self)@ == old(self)@.stop(
                    register as int,
                    note as int,
                ),
            },
            message matches SampleMessage::NewNote((register, note)) ==> {
                let place = (register * 128 + note) * 16;
                old(self).bank().sample(register as int, note as int) is Some ==> {
                    &&& final(self)@.voices[place] matches Some(voice)
                    &&& Some(*voice.sample_info) == old(self).bank().sample(
                        register as int,
                        note as int,
                    )
                    &&& voice.index == 0
                    &&& voice.fade_steps == 0
                    &&& !voice.fade_out
                }
            },
            message matches SampleMessage::Stop(register, note) ==> {
                let place = (register * 128 + note) * 16;
                old(self)@.voices[place] matches Some(voice) ==> {
                    &&& final(self)@.voices[place] matches Some(after)
                    &&& after.fade_out
                    &&& after.sample_info == voice.sample_info
                    &&& after.index == voice.index
                    &&& after.fade_steps == voice.fade_steps
                }
            },
    {
        match message {
            SampleMessage::NewNote((register, note)) => {
                let register = register as usize;
                let note = note as usize;
                let bank: &'a SampleBank<S, R> = self.sample_info;
                if let Some(info) = bank.get(register, note) {
                    let first: usize = (register * 128 + note) * 16;
                    let free = self.find_free_slot(register, note);
                    let voice = self.active_voices[first].take();
                    match (voice, free) {
                        (Some(voice), Some(slot)) => {
                            self.active_voices[first + slot] = Some(voice);
                            self.active_voice_indices.push((register, note, slot));
                        },
                        _ => {
                            self.active_voice_indices.push((register, note, 0));
                        },
                    }
                    self.active_voices[first] = Some(Samples::new(info));
                    proof {
                        let after = old(self)@.new_note(register, note, info);
                        assert(self@.voices =~= after.voices);
                        assert(self@.active =~= after.active);
                        lemma_new_note(old(self)@, register, note, info);
                    }
                }
            },
            SampleMessage::Stop(register, note) => {
                let first: usize = (register as usize * 128 + note as usize) * 16;
                if let Some(voice) = &mut self.active_voices[first] {
                    voice.fade_out = true;
                }
                assert(self@.voices =~= old(self)@.stop(register as int, note as int).voices);
            },
        }
    }

    /// Plays every voice into a buffer of `len` samples: `mix` is what there is
    /// to add to the buffer, in order. A voice that ends before the buffer is
    /// full, or whose chunks do not fill it to the last sample, is gone
    /// afterwards. Where the samples of a sound end before a chunk of it does,
    /// the voices before it are played and no other; its place in the list is
    /// returned.
    pub fn render(&mut self, len: usize, mix: &mut Vec<Mix<'a, S, R>>) -> (overrun: Option<usize>)
        requires
            old(self).wf(),
        ensures
            final(self).wf(),
            final(self).bank() == old(self).bank(),
            match overrun {
                None => {
                    let all = rendered(old(self)@.voices, old(self)@.active, len as int);
                    &&& renders(old(self)@.voices, old(self)@.active, len as int)
                    &&& final(self)@ == all.state
                    &&& final(mix)@ == all.mix
                },
                Some(place) => {
                    let active = old(self)@.active;
                    let done = rendered(old(self)@.voices, active.take(place as int), len as int);
                    &&& place < active.len()
                    &&& renders(old(self)@.voices, active.take(place as int), len as int)
                    &&& !renders(old(self)@.voices, active.take(place + 1), len as int)
                    &&& final(self)@.voices == done.state.voices
                    &&& final(self)@.active == done.state.active + active.skip(place as int)
                    &&& final(mix)@ == done.mix
                },
            },
    {
        mix.clear();
        let ghost voices = old(self)@.voices;
        let ghost active = old(self)@.active;
        let wanted: usize = len / CHUNK_LEN;
        let mut kept: Vec<(usize, usize, usize)> = Vec::new();
        let mut i: usize = 0;
        assert(active.take(0) =~= Seq::<(usize, usize, usize)>::empty());
        assert(active.skip(0) =~= active);
        while i < self.active_voice_indices.len()
            invariant
                i <= active.len(),
                wanted == len / CHUNK_LEN,
                self.bank() == old(self).bank(),
                self.active_voice_indices@ == active,
                voices == old(self)@.voices,
                active == old(self)@.active,
                old(self).wf(),
                self@.voices.len() == table_len(),
                renders(voices, active.take(i as int), len as int),
                rendered(voices, active.take(i as int), len as int) == (Rendered {
                    state: SamplerState { voices: self@.voices, active: kept@ },
                    mix: mix@,
                }),
                forall|k: int|
                    0 <= k < table_len() ==> (#[trigger] self@.voices[k] matches Some(voice) ==> {
                        &&& voice.wf()
                        &&& listed(kept@, k) || listed(active.skip(i as int), k)
                    }),
                forall|j: int| 0 <= j < kept@.len() ==> entry_in_table(#[trigger] kept@[j]),
            decreases active.len() - i,
        {
            let entry = self.active_voice_indices[i];
            let index: usize = (entry.0 * 128 + entry.1) * 16 + entry.2;
            let ghost before = self@.voices;
            let ghost kept_before = kept@;
            proof {
                assert(active.take(i + 1).drop_last() =~= active.take(i as int));
                assert(active.take(i + 1).last() == entry);
            }
            let mut full = false;
            let mut inside = true;
            if let Some(voice) = &mut self.active_voices[index] {
                match voice.play(wanted, mix) {
                    Some(count) => {
                        assert(count * CHUNK_LEN <= len) by (nonlinear_arith)
                            requires
                                count <= wanted,
                                wanted == len / CHUNK_LEN,
                                CHUNK_LEN == 8,
                        ;
                        full = count * CHUNK_LEN == len;
                    },
                    None => {
                        inside = false;
                    },
                }
            }
            if !inside {
                assert(self@.voices =~= before);
                self.keep(kept, i);
                return Some(i);
            }
            if full {
                kept.push(entry);
            } else {
                self.active_voices[index] = None;
            }
            proof {
                let prefix = active.take(i + 1);
                let after = rendered(voices, prefix, len as int);
                assert(after.state.voices =~= self@.voices);
                assert forall|k: int| 0 <= k < table_len() implies (
                #[trigger] self@.voices[k] matches Some(voice) ==> voice.wf() && (listed(kept@, k)
                    || listed(active.skip(i + 1), k))) by {
                    assert(before[k] matches Some(voice) ==> voice.wf() && (listed(kept_before, k)
                        || listed(active.skip(i as int), k)));
                    if self@.voices[k] is Some {
                        lemma_listed_push(kept_before, entry, k);
                        lemma_listed_skip(active, i as int, k);
                    }
                }
            }
            i = i + 1;
        }
        self.active_voice_indices = kept;
        assert(active.take(i as int) =~= active);
        assert(active.skip(i as int) =~= Seq::<(usize, usize, usize)>::empty());
        None
    }

    /// Puts `kept` in place of the first `done` entries of the list.
    fn keep(&mut self, kept: Vec<(usize, usize, usize)>, done: usize)
        requires
            old(self).bank().wf(),
            old(self)@.voices.len() == table_len(),
            done <= old(self)@.active.len(),
            forall|k: int|
                0 <= k < table_len() ==> (#[trigger] old(self)@.voices[k] matches Some(voice) ==> {
                    &&& voice.wf()
                    &&& listed(kept@, k) || listed(old(self)@.active.skip(done as int), k)
                }),
            forall|j: int| 0 <= j < kept@.len() ==> entry_in_table(#[trigger] kept@[j]),
            forall|j: int|
                0 <= j < old(self)@.active.len() ==> entry_in_table(
                    #[trigger] old(self)@.active[j],
                ),
        ensures
            final(self).wf(),
            final(self).bank() == old(self).bank(),
            final(self)@.voices == old(self)@.voices,
            final(self)@.active == kept@ + old(self)@.active.skip(done as int),
    {
        let ghost active = self@.active;
        let ghost first = kept@;
        let mut list = kept;
        let mut i: usize = done;
        assert(first + active.subrange(done as int, done as int) =~= first);
        while i < self.active_voice_indices.len()
            invariant
                *self == *old(self),
                active == self@.active,
                done <= i <= active.len(),
                list@ == first + active.subrange(done as int, i as int),
            decreases active.len() - i,
        {
            list.push(self.active_voice_indices[i]);
            assert(list@ =~= first + active.subrange(done as int, i + 1));
            i = i + 1;
        }
        assert(active.subrange(done as int, i as int) =~= active.skip(done as int));
        self.active_voice_indices = list;
        proof {
            let rest = active.skip(done as int);
            assert forall|k: int| 0 <= k < table_len() implies (
            #[trigger] self@.voices[k] matches Some(voice) ==> voice.wf() && listed(
                self@.active,
                k,
            )) by {
                if self@.voices[k] is Some {
                    lemma_listed_add(first, rest, k);
                }
            }
            assert forall|j: int| 0 <= j < self@.active.len() implies entry_in_table(
                #[trigger] self@.active[j],
            ) by {
                if j < first.len() {
                    assert(self@.active[j] == first[j]);
                } else {
                    assert(self@.active[j] == active[done + (j - first.len())]);
                }
            }
        }
    }
}

/// An entry of one of two lists is one of both together.
proof fn lemma_listed_add(
    first: Seq<(usize, usize, usize)>,
    second: Seq<(usize, usize, usize)>,
    index: int,
)
    ensures
        listed(first, index) || listed(second, index) ==> listed(first + second, index),
{
    let both = first + second;
    if listed(first, index) {
        let j = choose|j: int| 0 <= j < first.len() && entry_index(#[trigger] first[j]) == index;
        assert(both[j] == first[j]);
    } else if listed(second, index) {
        let j = choose|j: int| 0 <= j < second.len() && entry_index(#[trigger] second[j]) == index;
        assert(both[first.len() + j] == second[j]);
    }
}

/// From a frame at which a chunk can start, the next chunk starts at another
/// one, and neither lies behind the last of them.
proof fn lemma_next_start(index: int, loop_start: int, loop_end: int)
    requires
        0 <= index < loop_end,
        0 <= loop_start,
        loop_start + 4 <= loop_end,
        (loop_end - loop_start) % 4 == 0 ==> index % 4 == 0,
        (loop_end - loop_start) % 2 == 0 ==> index % 2 == 0,
    ensures
        (loop_end - loop_start) % 4 == 0 ==> {
            &&& index <= (loop_end - 1) / 4 * 4
            &&& (index + 4) % 4 == 0
            &&& (index + 4 - (loop_end - loop_start)) % 4 == 0
        },
        (loop_end - loop_start) % 2 == 0 ==> {
            &&& index <= (loop_end - 1) / 2 * 2
            &&& (index + 4) % 2 == 0
            &&& (index + 4 - (loop_end - loop_start)) % 2 == 0
        },
{
}

/// An entry that is listed stays listed when another is added.
proof fn lemma_listed_push(
    active: Seq<(usize, usize, usize)>,
    entry: (usize, usize, usize),
    index: int,
)
    ensures
        listed(active, index) ==> listed(active.push(entry), index),
        entry_index(entry) == index ==> listed(active.push(entry), index),
{
    let longer = active.push(entry);
    if listed(active, index) {
        let j = choose|j: int| 0 <= j < active.len() && entry_index(#[trigger] active[j]) == index;
        assert(longer[j] == active[j]);
    }
    assert(longer[active.len() as int] == entry);
}

/// An entry of the rest of a list is its first one, or one of what is left.
proof fn lemma_listed_skip(active: Seq<(usize, usize, usize)>, i: int, index: int)
    requires
        0 <= i < active.len(),
    ensures
        listed(active.skip(i), index) ==> entry_index(active[i]) == index || listed(
            active.skip(i + 1),
            index,
        ),
{
    let rest = active.skip(i);
    if listed(rest, index) {
        let j = choose|j: int| 0 <= j < rest.len() && entry_index(#[trigger] rest[j]) == index;
        if j > 0 {
            assert(active.skip(i + 1)[j - 1] == rest[j]);
        }
    }
}

/// What `free_slot` finds is a place from `slot` on that is free.
proof fn lemma_free_slot<'a, S, R>(
    voices: Seq<Option<Samples<'a, S, R>>>,
    register: int,
    note: int,
    slot: int,
)
    ensures
        free_slot(voices, register, note, slot) matches Some(x) ==> slot <= x < VOICE_COUNT
            && voices[slot_index(register, note, x)] is None,
    decreases VOICE_COUNT - slot,
{
    if slot < VOICE_COUNT && voices[slot_index(register, note, slot)] is Some {
        lemma_free_slot(voices, register, note, slot + 1);
    }
}

/// Starting a pipe keeps the state well-formed.
proof fn lemma_new_note<'a, S, R>(
    state: SamplerState<'a, S, R>,
    register: usize,
    note: usize,
    sample_info: &'a SampleInfo<S, R>,
)
    requires
        state.wf(),
        register < NOTE_COUNT,
        note < NOTE_COUNT,
    ensures
        state.new_note(register, note, sample_info).wf(),
{
    let after = state.new_note(register, note, sample_info);
    let first = slot_index(register as int, note as int, 0);
    lemma_free_slot(state.voices, register as int, note as int, 1);
    assert forall|i: int| 0 <= i < table_len() implies (#[trigger] after.voices[i] matches Some(
        voice,
    ) ==> voice.wf() && listed(after.active, i)) by {
        lemma_listed_push(state.active, after.active.last(), i);
        assert(after.active =~= state.active.push(after.active.last()));
        if i == first {
            assert(state.voices[first] is Some ==> listed(state.active, first));
        } else if after.voices[i] is Some && state.voices[i] is Some {
            assert(listed(state.active, i));
        }
    }
}

/// A steady voice reads inside the samples of its sound.
pub proof fn law_reads_inside<'a, S, R>(voice: Samples<'a, S, R>)
    requires
        voice.steady(),
    ensures
        voice.chunk().start + CHUNK_LEN <= voice.sample_info.samples@.len(),
        voice.chunk().sample_info == voice.sample_info,
{
    voice.lemma_steady();
}

/// A voice plays on where it was: two buffers are one long buffer.
pub proof fn law_played_adds<'a, S, R>(voice: Samples<'a, S, R>, first: nat, second: nat)
    ensures
        voice.played(first).played(second) == voice.played(first + second),
    decreases second,
{
    if second > 0 {
        law_played_adds(voice, first, (second - 1) as nat);
        assert(first + second - 1 == first + (second - 1) as nat);
    }
}

/// A sound is played from its start to the end of its loop, and from then on
/// round its loop without a gap.
pub proof fn law_loop_position<'a, S, R>(sample_info: &'a SampleInfo<S, R>, count: nat)
    requires
        sample_info.loop_start + FRAME_COUNT <= sample_info.loop_end,
    ensures
        Samples::started(sample_info).played(count).index == if FRAME_COUNT * count
            < sample_info.loop_end {
            FRAME_COUNT * count
        } else {
            sample_info.loop_start + (FRAME_COUNT * count - sample_info.loop_start) % (
            sample_info.loop_end - sample_info.loop_start)
        },
        Samples::started(sample_info).played(count).sample_info == sample_info,
    decreases count,
{
    if count > 0 {
        let before = (count - 1) as nat;
        law_loop_position(sample_info, before);
        let start = sample_info.loop_start as int;
        let len = sample_info.loop_end - start;
        let at = 4 * before - start;
        assert(FRAME_COUNT * before == 4 * before && FRAME_COUNT * count == 4 * before + 4);
        if 4 * before >= sample_info.loop_end {
            vstd::arithmetic::div_mod::lemma_fundamental_div_mod(at, len);
            let quotient = at / len;
            let rest = at % len;
            if rest + 4 >= len {
                assert(at + 4 == (quotient + 1) * len + (rest + 4 - len)) by (nonlinear_arith)
                    requires
                        at == len * quotient + rest,
                ;
                vstd::arithmetic::div_mod::lemma_fundamental_div_mod_converse(
                    at + 4,
                    len,
                    quotient + 1,
                    rest + 4 - len,
                );
            } else {
                assert(at + 4 == quotient * len + (rest + 4)) by (nonlinear_arith)
                    requires
                        at == len * quotient + rest,
                ;
                vstd::arithmetic::div_mod::lemma_fundamental_div_mod_converse(
                    at + 4,
                    len,
                    quotient,
                    rest + 4,
                );
            }
        } else if 4 * before + 4 >= sample_info.loop_end {
            vstd::arithmetic::div_mod::lemma_fundamental_div_mod_converse(
                at + 4,
                len,
                1,
                at + 4 - len,
            );
        }
    }
}

/// In a loop that is shorter than a chunk, the voice moves on with every chunk.
proof fn lemma_drifts<'a, S, R>(sample_info: &'a SampleInfo<S, R>, count: nat)
    requires
        sample_info.loop_start + FRAME_COUNT > sample_info.loop_end,
        forall|k: nat| #[trigger] Samples::started(sample_info).played(k).readable(),
    ensures
        Samples::started(sample_info).played(count).index >= count,
        Samples::started(sample_info).played(count).sample_info == sample_info,
    decreases count,
{
    if count > 0 {
        let before = (count - 1) as nat;
        lemma_drifts(sample_info, before);
        assert(Samples::started(sample_info).played(before).readable());
        assert(sample_info.samples@.len() == sample_info.samples.len());
    }
}

/// After how many turns of a loop of `len` frames a chunk starts at `last`.
proof fn lemma_turns(last: int, len: int) -> (turns: int)
    requires
        0 <= last,
        0 < len,
        len % 4 == 0 ==> last % 4 == 0,
        len % 2 == 0 ==> last % 2 == 0,
    ensures
        0 <= turns < 4,
        turns > 0 ==> turns * len >= len,
        turns * len >= 0,
        (last + turns * len) % 4 == 0,
{
    if last % 4 == 0 {
        0
    } else if (last + len) % 4 == 0 {
        1
    } else if (last + 2 * len) % 4 == 0 {
        2
    } else {
        assert((last + 3 * len) % 4 == 0);
        3
    }
}

/// In a loop that is no shorter than a chunk, some chunk starts at the last
/// frame that a chunk can start at.
proof fn lemma_last_start_reached<'a, S, R>(sample_info: &'a SampleInfo<S, R>) -> (count: nat)
    requires
        sample_info.loop_start + FRAME_COUNT <= sample_info.loop_end,
    ensures
        Samples::started(sample_info).played(count).index == sample_info.last_start(),
        Samples::started(sample_info).played(count).sample_info == sample_info,
{
    let start = sample_info.loop_start as int;
    let len = sample_info.loop_end - start;
    let last = sample_info.last_start();
    let turns = lemma_turns(last, len);
    let count = ((last + turns * len) / 4) as nat;
    law_loop_position(sample_info, count);
    assert(FRAME_COUNT * count == last + turns * len);
    if turns > 0 {
        vstd::arithmetic::div_mod::lemma_mod_multiples_vanish(turns, last - start, len);
        assert(len * turns == turns * len) by (nonlinear_arith);
        vstd::arithmetic::div_mod::lemma_small_mod((last - start) as nat, len as nat);
    }
    count
}

/// The playable sounds are exactly those that a voice can play for ever: every
/// chunk it comes to lies inside the samples.
pub proof fn law_playable_sounds_play_on<'a, S, R>(sample_info: &'a SampleInfo<S, R>)
    ensures
        sample_info.playable() <==> forall|count: nat| #[trigger]
            Samples::started(sample_info).played(count).readable(),
{
    let voice = Samples::started(sample_info);
    if sample_info.playable() {
        assert forall|count: nat| #[trigger] voice.played(count).readable() by {
            voice.lemma_steady_played(count);
            voice.played(count).lemma_steady();
        }
    } else if forall|count: nat| #[trigger] voice.played(count).readable() {
        if sample_info.loop_start + FRAME_COUNT > sample_info.loop_end {
            let count = sample_info.samples@.len();
            lemma_drifts(sample_info, count);
            assert(voice.played(count).readable());
        } else {
            let count = lemma_last_start_reached(sample_info);
            assert(voice.played(count).readable());
        }
    }
}

/// A voice that fades out ends after exactly the chunks it has left.
pub proof fn law_fading_voice_ends<'a, S, R>(voice: Samples<'a, S, R>, count: nat)
    requires
        voice.wf(),
        voice.fade_out,
        count <= FADE_CHUNKS - voice.fade_steps,
    ensures
        voice.played(count).ended() <==> count == FADE_CHUNKS - voice.fade_steps,
{
    voice.lemma_played(count);
}

/// A voice that does not fade out never ends.
pub proof fn law_held_voice_never_ends<'a, S, R>(voice: Samples<'a, S, R>, count: nat)
    requires
        voice.wf(),
        !voice.fade_out,
        !voice.ended(),
    ensures
        !voice.played(count).ended(),
{
    voice.lemma_played(count);
}

impl<'a, S, R> SamplerState<'a, S, R> {
    /// Every entry of the list stands there once and has a voice.
    pub open spec fn tidy(self) -> bool {
        &&& self.active.no_duplicates()
        &&& forall|j: int|
            0 <= j < self.active.len() ==> self.voices[entry_index(#[trigger] self.active[j])]
                is Some
    }
}

/// Different entries have different places.
proof fn lemma_entry_index(a: (usize, usize, usize), b: (usize, usize, usize))
    requires
        entry_in_table(a),
        entry_in_table(b),
    ensures
        0 <= entry_index(a) < table_len(),
        entry_index(a) == entry_index(b) ==> a == b,
{
}

/// A pipe that starts again keeps all its voices, unless it sounds in all its
/// places.
pub proof fn law_new_note_keeps_voices<'a, S, R>(
    state: SamplerState<'a, S, R>,
    register: usize,
    note: usize,
    sample_info: &'a SampleInfo<S, R>,
)
    requires
        state.wf(),
        register < NOTE_COUNT,
        note < NOTE_COUNT,
        state.voices[slot_index(register as int, note as int, 0)] is None || free_slot(
            state.voices,
            register as int,
            note as int,
            1,
        ) is Some,
    ensures
        forall|i: int|
            0 <= i < table_len() && i != slot_index(register as int, note as int, 0)
                && state.voices[i] is Some ==> #[trigger] state.new_note(
                register,
                note,
                sample_info,
            ).voices[i] == state.voices[i],
        state.voices[slot_index(register as int, note as int, 0)] is Some ==> exists|slot: int|
            1 <= slot < VOICE_COUNT && #[trigger] state.new_note(
                register,
                note,
                sample_info,
            ).voices[slot_index(register as int, note as int, slot)] == state.voices[slot_index(
                register as int,
                note as int,
                0,
            )],
        state.new_note(register, note, sample_info).voices[slot_index(
            register as int,
            note as int,
            0,
        )] == Some(Samples::started(sample_info)),
{
    lemma_free_slot(state.voices, register as int, note as int, 1);
    let slot = free_slot(state.voices, register as int, note as int, 1)->0;
    let after = state.new_note(register, note, sample_info);
    if state.voices[slot_index(register as int, note as int, 0)] is Some {
        assert(after.voices[slot_index(register as int, note as int, slot)]
            == state.voices[slot_index(register as int, note as int, 0)]);
    }
}

/// The list of voices stays tidy when a pipe starts, unless the pipe sounds in
/// all its places.
pub proof fn law_new_note_stays_tidy<'a, S, R>(
    state: SamplerState<'a, S, R>,
    register: usize,
    note: usize,
    sample_info: &'a SampleInfo<S, R>,
)
    requires
        state.wf(),
        state.tidy(),
        register < NOTE_COUNT,
        note < NOTE_COUNT,
        state.voices[slot_index(register as int, note as int, 0)] is None || free_slot(
            state.voices,
            register as int,
            note as int,
            1,
        ) is Some,
    ensures
        state.new_note(register, note, sample_info).tidy(),
{
    lemma_free_slot(state.voices, register as int, note as int, 1);
    let after = state.new_note(register, note, sample_info);
    let entry = after.active.last();
    assert(after.active =~= state.active.push(entry));
    assert forall|j: int| 0 <= j < state.active.len() implies #[trigger] state.active[j]
        != entry by {
        assert(state.voices[entry_index(state.active[j])] is Some);
    }
    assert forall|j: int| 0 <= j < after.active.len() implies after.voices[entry_index(
        #[trigger] after.active[j],
    )] is Some by {
        if j < state.active.len() {
            assert(after.active[j] == state.active[j]);
            assert(state.voices[entry_index(state.active[j])] is Some);
        }
    }
}

/// The list of voices stays tidy when a pipe fades out.
pub proof fn law_stop_stays_tidy<'a, S, R>(
    state: SamplerState<'a, S, R>,
    register: usize,
    note: usize,
)
    requires
        state.wf(),
        state.tidy(),
        register < NOTE_COUNT,
        note < REGISTER_COUNT,
    ensures
        state.stop(register as int, note as int).tidy(),
{
    let after = state.stop(register as int, note as int);
    assert forall|j: int| 0 <= j < after.active.len() implies after.voices[entry_index(
        #[trigger] after.active[j],
    )] is Some by {
        assert(state.voices[entry_index(state.active[j])] is Some);
    }
}

/// What the voices of a list play into a buffer, each of them from where it is.
pub open spec fn mixed<'a, S, R>(
    voices: Seq<Option<Samples<'a, S, R>>>,
    active: Seq<(usize, usize, usize)>,
    len: int,
) -> Seq<Mix<'a, S, R>>
    decreases active.len(),
{
    if active.len() == 0 {
        Seq::empty()
    } else {
        let voice = voices[entry_index(active.last())]->0;
        mixed(voices, active.drop_last(), len) + voice.mixes(
            voice.chunk_count(len / CHUNK_LEN as int),
        )
    }
}

/// A voice after a buffer of `len` samples, if it filled it.
pub open spec fn survivor<'a, S, R>(voice: Samples<'a, S, R>, len: int) -> Option<
    Samples<'a, S, R>,
> {
    let count = voice.chunk_count(len / CHUNK_LEN as int);
    if count * CHUNK_LEN == len {
        Some(voice.played(count as nat))
    } else {
        None
    }
}

/// The entries of those voices that fill a buffer of `len` samples.
pub open spec fn survivors<'a, S, R>(
    voices: Seq<Option<Samples<'a, S, R>>>,
    active: Seq<(usize, usize, usize)>,
    len: int,
) -> Seq<(usize, usize, usize)>
    decreases active.len(),
{
    if active.len() == 0 {
        Seq::empty()
    } else {
        let earlier = survivors(voices, active.drop_last(), len);
        if survivor(voices[entry_index(active.last())]->0, len) is Some {
            earlier.push(active.last())
        } else {
            earlier
        }
    }
}

/// In a tidy state every voice is played once: the buffer gets what each voice
/// plays from where it was, each voice moves on by as much, those that do not
/// fill the buffer leave, and the state stays tidy.
pub proof fn law_each_voice_once<'a, S, R>(state: SamplerState<'a, S, R>, len: int)
    requires
        state.wf(),
        state.tidy(),
        0 <= len,
    ensures
        rendered(state.voices, state.active, len).mix == mixed(state.voices, state.active, len),
        rendered(state.voices, state.active, len).state.wf(),
        rendered(state.voices, state.active, len).state.tidy(),
        rendered(state.voices, state.active, len).state.active == survivors(
            state.voices,
            state.active,
            len,
        ),
        forall|i: int|
            0 <= i < table_len() ==> #[trigger] rendered(
                state.voices,
                state.active,
                len,
            ).state.voices[i] == match state.voices[i] {
                Some(voice) => survivor(voice, len),
                None => None,
            },
{
    lemma_each_voice_once(state, len, state.active.len());
    assert(state.active.take(state.active.len() as int) =~= state.active);
    let after = rendered(state.voices, state.active, len).state;
    assert forall|i: int| 0 <= i < table_len() implies #[trigger] after.voices[i]
        == match state.voices[i] {
        Some(voice) => survivor(voice, len),
        None => None,
    } by {
        if state.voices[i] is Some {
            assert(listed(state.active, i));
        }
    }
    assert forall|i: int| 0 <= i < table_len() implies (#[trigger] after.voices[i] matches Some(
        voice,
    ) ==> voice.wf() && listed(after.active, i)) by {
        if after.voices[i] is Some {
            let voice = state.voices[i]->0;
            assert(state.voices[i] == Some(voice) && voice.wf());
            voice.lemma_played(voice.chunk_count(len / CHUNK_LEN as int) as nat);
            lemma_survivor_listed(state.voices, state.active, len, i);
        }
    }
    assert forall|j: int| 0 <= j < after.active.len() implies entry_in_table(
        #[trigger] after.active[j],
    ) by {
        lemma_survivors_in_list(state.voices, state.active, len);
        assert(state.active.contains(after.active[j]));
    }
}

/// The entries of the voices that stay were in the list.
proof fn lemma_survivors_in_list<'a, S, R>(
    voices: Seq<Option<Samples<'a, S, R>>>,
    active: Seq<(usize, usize, usize)>,
    len: int,
)
    ensures
        forall|j: int|
            0 <= j < survivors(voices, active, len).len() ==> active.contains(
                #[trigger] survivors(voices, active, len)[j],
            ),
    decreases active.len(),
{
    if active.len() > 0 {
        let earlier = survivors(voices, active.drop_last(), len);
        let all = survivors(voices, active, len);
        lemma_survivors_in_list(voices, active.drop_last(), len);
        assert forall|j: int| 0 <= j < all.len() implies active.contains(#[trigger] all[j]) by {
            if j < earlier.len() {
                assert(all[j] == earlier[j]);
                let k = choose|k: int|
                    0 <= k < active.drop_last().len() && active.drop_last()[k] == earlier[j];
                assert(active[k] == all[j]);
            } else {
                assert(active[active.len() - 1] == all[j]);
            }
        }
    }
}

/// A voice that stays is still listed.
proof fn lemma_survivor_listed<'a, S, R>(
    voices: Seq<Option<Samples<'a, S, R>>>,
    active: Seq<(usize, usize, usize)>,
    len: int,
    index: int,
)
    requires
        listed(active, index),
        survivor(voices[index]->0, len) is Some,
    ensures
        listed(survivors(voices, active, len), index),
    decreases active.len(),
{
    let j = choose|j: int| 0 <= j < active.len() && entry_index(#[trigger] active[j]) == index;
    let shorter = active.drop_last();
    let earlier = survivors(voices, shorter, len);
    if entry_index(active.last()) == index {
        lemma_listed_push(earlier, active.last(), index);
    } else {
        assert(shorter[j] == active[j]);
        assert(listed(shorter, index));
        lemma_survivor_listed(voices, shorter, len, index);
        lemma_listed_push(earlier, active.last(), index);
    }
}

/// The first `count` entries of a tidy list, one after the other.
proof fn lemma_each_voice_once<'a, S, R>(state: SamplerState<'a, S, R>, len: int, count: nat)
    requires
        state.wf(),
        state.tidy(),
        count <= state.active.len(),
    ensures
        ({
            let done = state.active.take(count as int);
            let after = rendered(state.voices, done, len);
            &&& after.mix == mixed(state.voices, done, len)
            &&& after.state.active == survivors(state.voices, done, len)
            &&& after.state.voices.len() == table_len()
            &&& after.state.tidy()
            &&& forall|j: int|
                0 <= j < after.state.active.len() ==> done.contains(#[trigger] after.state.active[j])
            &&& forall|i: int|
                0 <= i < table_len() ==> #[trigger] after.state.voices[i] == if listed(done, i) {
                    survivor(state.voices[i]->0, len)
                } else {
                    state.voices[i]
                }
        }),
    decreases count,
{
    let done = state.active.take(count as int);
    let after = rendered(state.voices, done, len);
    if count == 0 {
        assert(done =~= Seq::<(usize, usize, usize)>::empty());
        assert forall|i: int| !listed(done, i) by {}
    } else {
        lemma_each_voice_once(state, len, (count - 1) as nat);
        let earlier = state.active.take(count - 1);
        let before = rendered(state.voices, earlier, len);
        let entry = state.active[count - 1];
        let index = entry_index(entry);
        assert(done.drop_last() =~= earlier);
        assert(done.last() == entry);
        assert(entry_in_table(entry));
        lemma_entry_index(entry, entry);
        assert(!listed(earlier, index)) by {
            if listed(earlier, index) {
                let j = choose|j: int|
                    0 <= j < earlier.len() && entry_index(#[trigger] earlier[j]) == index;
                assert(earlier[j] == state.active[j]);
                lemma_entry_index(state.active[j], entry);
            }
        }
        assert(before.state.voices[index] == state.voices[index]);
        assert(state.voices[entry_index(state.active[count - 1])] is Some);
        let voice = state.voices[index]->0;
        assert(after.state.voices[index] == survivor(voice, len));
        assert forall|j: int| 0 <= j < after.state.active.len() implies done.contains(
            #[trigger] after.state.active[j],
        ) by {
            if j < before.state.active.len() {
                assert(after.state.active[j] == before.state.active[j]);
                assert(earlier.contains(before.state.active[j]));
                let k = choose|k: int| 0 <= k < earlier.len() && earlier[k]
                    == before.state.active[j];
                assert(done[k] == earlier[k]);
            } else {
                assert(done[count - 1] == entry);
            }
        }
        assert forall|i: int| 0 <= i < table_len() implies #[trigger] after.state.voices[i]
            == if listed(done, i) {
            survivor(state.voices[i]->0, len)
        } else {
            state.voices[i]
        } by {
            assert(before.state.voices[i] == if listed(earlier, i) {
                survivor(state.voices[i]->0, len)
            } else {
                state.voices[i]
            });
            assert(done =~= earlier.push(entry));
            lemma_listed_push(earlier, entry, i);
            if i != index && listed(done, i) {
                let j = choose|j: int| 0 <= j < done.len() && entry_index(#[trigger] done[j]) == i;
                assert(earlier[j] == done[j]);
            }
        }
        assert forall|j: int| 0 <= j < before.state.active.len() implies #[trigger]
            before.state.active[j] != entry by {
            assert(earlier.contains(before.state.active[j]));
            let k = choose|k: int| 0 <= k < earlier.len() && earlier[k] == before.state.active[j];
            assert(earlier[k] == state.active[k]);
        }
        assert forall|j: int| 0 <= j < after.state.active.len() implies after.state.voices[entry_index(
            #[trigger] after.state.active[j],
        )] is Some by {
            if j < before.state.active.len() {
                let other = before.state.active[j];
                assert(after.state.active[j] == other);
                assert(before.state.voices[entry_index(other)] is Some);
                assert(earlier.contains(other));
                let k = choose|k: int| 0 <= k < earlier.len() && earlier[k] == other;
                assert(earlier[k] == state.active[k]);
                lemma_entry_index(other, entry);
            }
        }
    }
}

/// Two buffers are one: what a voice plays into a long buffer is what it plays
/// into the first part of it, and goes on with in the second.
pub proof fn law_voice_plays_on<'a, S, R>(voice: Samples<'a, S, R>, first: nat, second: nat)
    requires
        voice.wf(),
    ensures
        ({
            let head = voice.chunk_count(first as int);
            let total = voice.chunk_count((first + second) as int);
            let later = voice.played(first);
            let tail = later.chunk_count(second as int);
            &&& forall|k: int|
                0 <= k < head ==> #[trigger] voice.mixes(total)[k] == voice.mixes(head)[k]
            &&& head < first ==> total == head
            &&& head == first ==> total == first + tail
            &&& head == first ==> forall|k: int|
                0 <= k < tail ==> voice.mixes(total)[first + k].chunk == (#[trigger] later.mixes(
                    tail,
                )[k]).chunk
        }),
{
    let head = voice.chunk_count(first as int);
    let total = voice.chunk_count((first + second) as int);
    let later = voice.played(first);
    let tail = later.chunk_count(second as int);
    if head == first {
        voice.lemma_played(first);
        assert forall|k: int| 0 <= k < tail implies voice.mixes(total)[first + k].chunk == (
        #[trigger] later.mixes(tail)[k]).chunk by {
            law_played_adds(voice, first, k as nat);
        }
    }
}

/// A voice that fills a long buffer is one that fills both parts of it.
#[verifier::spinoff_prover]
proof fn lemma_survivor_adds<'a, S, R>(voice: Samples<'a, S, R>, first: int, second: int)
    requires
        voice.wf(),
        0 <= first,
        0 <= second,
        first % 8 == 0,
        second % 8 == 0,
    ensures
        survivor(voice, first + second) == match survivor(voice, first) {
            Some(later) => survivor(later, second),
            None => None,
        },
{
    let one = (first / 8) as nat;
    let two = (second / 8) as nat;
    let head = voice.chunk_count(one as int);
    let total = voice.chunk_count((one + two) as int);
    assert(first == 8 * one && second == 8 * two);
    assert((first + second) / 8 == one + two);
    law_voice_plays_on(voice, one, two);
    if head < one {
        assert(survivor(voice, first) is None);
        assert(total == head);
        assert(survivor(voice, first + second) is None);
    } else {
        let later = voice.played(one);
        let tail = later.chunk_count(two as int);
        assert(head == one);
        assert(survivor(voice, first) == Some(later));
        assert(total == one + tail);
        if tail == two {
            law_played_adds(voice, one, two);
            assert(survivor(later, second) == Some(later.played(two)));
            assert(survivor(voice, first + second) == Some(voice.played(one + two)));
        } else {
            assert(survivor(later, second) is None);
            assert(survivor(voice, first + second) is None);
        }
    }
}

/// What a mix adds to one chunk of the output, in order.
pub open spec fn chunks_at<'a, S, R>(mix: Seq<Mix<'a, S, R>>, out: int) -> Seq<Chunk<'a, S, R>>
    decreases mix.len(),
{
    if mix.len() == 0 {
        Seq::empty()
    } else {
        let earlier = chunks_at(mix.drop_last(), out);
        if mix.last().out == out {
            earlier.push(mix.last().chunk)
        } else {
            earlier
        }
    }
}

/// One mix, and then another.
proof fn lemma_chunks_at_adds<'a, S, R>(
    first: Seq<Mix<'a, S, R>>,
    second: Seq<Mix<'a, S, R>>,
    out: int,
)
    ensures
        chunks_at(first + second, out) == chunks_at(first, out) + chunks_at(second, out),
    decreases second.len(),
{
    if second.len() == 0 {
        assert(first + second =~= first);
        assert(chunks_at(first, out) + Seq::empty() =~= chunks_at(first, out));
    } else {
        lemma_chunks_at_adds(first, second.drop_last(), out);
        assert((first + second).drop_last() =~= first + second.drop_last());
        assert((first + second).last() == second.last());
        assert(chunks_at(first + second, out) =~= chunks_at(first, out) + chunks_at(second, out));
    }
}

/// A voice adds one chunk to each chunk of the output that it comes to.
proof fn lemma_chunks_at_voice<'a, S, R>(voice: Samples<'a, S, R>, count: int, out: int)
    requires
        0 <= count <= usize::MAX,
    ensures
        chunks_at(voice.mixes(count), out) == if 0 <= out < count {
            seq![voice.played(out as nat).chunk()]
        } else {
            Seq::empty()
        },
    decreases count,
{
    if count > 0 {
        lemma_chunks_at_voice(voice, count - 1, out);
        assert(voice.mixes(count).drop_last() =~= voice.mixes(count - 1));
        assert(voice.mixes(count).last().out == count - 1);
        assert(chunks_at(voice.mixes(count), out) =~= if 0 <= out < count {
            seq![voice.played(out as nat).chunk()]
        } else {
            Seq::empty()
        });
    }
}

/// What one voice adds to a chunk of a long buffer is what it adds to it in the
/// part that the chunk falls in.
#[verifier::spinoff_prover]
proof fn lemma_voice_output_adds<'a, S, R>(
    voice: Samples<'a, S, R>,
    first: int,
    second: int,
    out: int,
)
    requires
        voice.wf(),
        0 <= first,
        0 <= second,
        first % 8 == 0,
        second % 8 == 0,
        first + second <= usize::MAX,
        0 <= out,
    ensures
        ({
            let long = chunks_at(voice.mixes(voice.chunk_count((first + second) / 8)), out);
            if out < first / 8 {
                long == chunks_at(voice.mixes(voice.chunk_count(first / 8)), out)
            } else {
                long == match survivor(voice, first) {
                    Some(later) => chunks_at(
                        later.mixes(later.chunk_count(second / 8)),
                        out - first / 8,
                    ),
                    None => Seq::empty(),
                }
            }
        }),
{
    let one = (first / 8) as nat;
    let two = (second / 8) as nat;
    let head = voice.chunk_count(one as int);
    let total = voice.chunk_count((one + two) as int);
    assert(first == 8 * one && second == 8 * two);
    assert((first + second) / 8 == one + two);
    law_voice_plays_on(voice, one, two);
    lemma_chunks_at_voice(voice, total, out);
    lemma_chunks_at_voice(voice, head, out);
    if out < one {
        if head < one {
            assert(total == head);
        }
    } else if head < one {
        assert(survivor(voice, first) is None);
    } else {
        let later = voice.played(one);
        let tail = later.chunk_count(two as int);
        voice.lemma_played(one);
        assert(survivor(voice, first) == Some(later));
        lemma_chunks_at_voice(later, tail, out - one);
        law_played_adds(voice, one, (out - one) as nat);
    }
}

/// What the voices of a list add to a chunk of a long buffer is what they add to
/// it in the part that the chunk falls in.
proof fn lemma_output_adds<'a, S, R>(
    voices: Seq<Option<Samples<'a, S, R>>>,
    middle: Seq<Option<Samples<'a, S, R>>>,
    active: Seq<(usize, usize, usize)>,
    first: int,
    second: int,
    out: int,
)
    requires
        0 <= first,
        0 <= second,
        first % 8 == 0,
        second % 8 == 0,
        first + second <= usize::MAX,
        0 <= out,
        forall|j: int|
            0 <= j < active.len() ==> {
                let index = entry_index(#[trigger] active[j]);
                &&& voices[index] matches Some(voice)
                &&& voice.wf()
                &&& middle[index] == survivor(voice, first)
            },
    ensures
        chunks_at(mixed(voices, active, first + second), out) == if out < first / 8 {
            chunks_at(mixed(voices, active, first), out)
        } else {
            chunks_at(
                mixed(middle, survivors(voices, active, first), second),
                out - first / 8,
            )
        },
    decreases active.len(),
{
    if active.len() > 0 {
        let shorter = active.drop_last();
        assert forall|j: int| 0 <= j < shorter.len() implies {
            let index = entry_index(#[trigger] shorter[j]);
            &&& voices[index] matches Some(voice)
            &&& voice.wf()
            &&& middle[index] == survivor(voice, first)
        } by {
            assert(shorter[j] == active[j]);
        }
        lemma_output_adds(voices, middle, shorter, first, second, out);
        let entry = active.last();
        assert(active[active.len() - 1] == entry);
        let voice = voices[entry_index(entry)]->0;
        lemma_voice_output_adds(voice, first, second, out);
        lemma_chunks_at_adds(
            mixed(voices, shorter, first + second),
            voice.mixes(voice.chunk_count((first + second) / 8)),
            out,
        );
        if out < first / 8 {
            lemma_chunks_at_adds(
                mixed(voices, shorter, first),
                voice.mixes(voice.chunk_count(first / 8)),
                out,
            );
        } else {
            let earlier = survivors(voices, shorter, first);
            let before = mixed(middle, earlier, second);
            match survivor(voice, first) {
                Some(later) => {
                    let all = survivors(voices, active, first);
                    assert(all.drop_last() =~= earlier);
                    assert(all.last() == entry);
                    lemma_chunks_at_adds(
                        before,
                        later.mixes(later.chunk_count(second / 8)),
                        out - first / 8,
                    );
                },
                None => {
                    assert(chunks_at(before, out - first / 8) + Seq::<Chunk<'a, S, R>>::empty()
                        =~= chunks_at(before, out - first / 8));
                },
            }
        }
    }
}

/// The entries that stay after a long buffer are those that stay after both
/// parts of it.
proof fn lemma_survivors_add<'a, S, R>(
    voices: Seq<Option<Samples<'a, S, R>>>,
    middle: Seq<Option<Samples<'a, S, R>>>,
    active: Seq<(usize, usize, usize)>,
    first: int,
    second: int,
)
    requires
        0 <= first,
        0 <= second,
        first % 8 == 0,
        second % 8 == 0,
        forall|j: int|
            0 <= j < active.len() ==> {
                let index = entry_index(#[trigger] active[j]);
                &&& voices[index] matches Some(voice)
                &&& voice.wf()
                &&& middle[index] == survivor(voice, first)
            },
    ensures
        survivors(middle, survivors(voices, active, first), second) == survivors(
            voices,
            active,
            first + second,
        ),
    decreases active.len(),
{
    if active.len() > 0 {
        let shorter = active.drop_last();
        assert forall|j: int| 0 <= j < shorter.len() implies {
            let index = entry_index(#[trigger] shorter[j]);
            &&& voices[index] matches Some(voice)
            &&& voice.wf()
            &&& middle[index] == survivor(voice, first)
        } by {
            assert(shorter[j] == active[j]);
        }
        lemma_survivors_add(voices, middle, shorter, first, second);
        let entry = active.last();
        assert(active[active.len() - 1] == entry);
        let voice = voices[entry_index(entry)]->0;
        lemma_survivor_adds(voice, first, second);
        let earlier = survivors(voices, shorter, first);
        if survivor(voice, first) is Some {
            assert(earlier.push(entry).drop_last() =~= earlier);
            assert(earlier.push(entry).last() == entry);
        }
    }
}

/// Two buffers are one: a tidy state that fills two buffers, each of whole
/// chunks, ends as one that fills a buffer as long as both, and each chunk of the
/// long buffer gets the same chunks, in the same order, as its place in the first
/// buffer or in the second.
pub proof fn law_two_buffers_are_one<'a, S, R>(
    state: SamplerState<'a, S, R>,
    first: int,
    second: int,
)
    requires
        state.wf(),
        state.tidy(),
        0 <= first,
        0 <= second,
        first % 8 == 0,
        second % 8 == 0,
        first + second <= usize::MAX,
    ensures
        ({
            let head = rendered(state.voices, state.active, first);
            let tail = rendered(head.state.voices, head.state.active, second);
            let long = rendered(state.voices, state.active, first + second);
            &&& tail.state == long.state
            &&& forall|out: int|
                0 <= out < first / 8 ==> #[trigger] chunks_at(long.mix, out) == chunks_at(
                    head.mix,
                    out,
                )
            &&& forall|out: int|
                first / 8 <= out ==> #[trigger] chunks_at(long.mix, out) == chunks_at(
                    tail.mix,
                    out - first / 8,
                )
        }),
{
    let middle = rendered(state.voices, state.active, first).state;
    let end = rendered(middle.voices, middle.active, second).state;
    let one = rendered(state.voices, state.active, first + second).state;
    law_each_voice_once(state, first);
    law_each_voice_once(state, first + second);
    law_each_voice_once(middle, second);
    assert forall|j: int| 0 <= j < state.active.len() implies {
        let index = entry_index(#[trigger] state.active[j]);
        &&& state.voices[index] matches Some(voice)
        &&& voice.wf()
        &&& middle.voices[index] == survivor(voice, first)
    } by {
        lemma_entry_index(state.active[j], state.active[j]);
        assert(state.voices[entry_index(state.active[j])] is Some);
    }
    lemma_survivors_add(state.voices, middle.voices, state.active, first, second);
    let head_mix = rendered(state.voices, state.active, first).mix;
    let tail_mix = rendered(middle.voices, middle.active, second).mix;
    let long_mix = rendered(state.voices, state.active, first + second).mix;
    assert forall|out: int| 0 <= out < first / 8 implies #[trigger] chunks_at(long_mix, out)
        == chunks_at(head_mix, out) by {
        lemma_output_adds(state.voices, middle.voices, state.active, first, second, out);
    }
    assert forall|out: int| first / 8 <= out implies #[trigger] chunks_at(long_mix, out)
        == chunks_at(tail_mix, out - first / 8) by {
        lemma_output_adds(state.voices, middle.voices, state.active, first, second, out);
    }
    assert forall|i: int| 0 <= i < table_len() implies end.voices[i] == one.voices[i] by {
        assert(state.voices[i] matches Some(voice) ==> voice.wf());
        assert(middle.voices[i] == match state.voices[i] {
            Some(voice) => survivor(voice, first),
            None => None,
        });
        if state.voices[i] is Some {
            lemma_survivor_adds(state.voices[i]->0, first, second);
        }
    }
    assert(end.voices =~= one.voices);
}

/// A voice that fades out before a buffer is full gives its place free.
#[verifier::spinoff_prover]
pub proof fn law_faded_voice_leaves<'a, S, R>(
    state: SamplerState<'a, S, R>,
    len: int,
    index: int,
)
    requires
        state.wf(),
        state.tidy(),
        0 <= index < table_len(),
        state.voices[index] matches Some(voice) && voice.fade_out && CHUNK_LEN * (FADE_CHUNKS
            - voice.fade_steps) < len,
    ensures
        rendered(state.voices, state.active, len).state.voices[index] is None,
        !listed(rendered(state.voices, state.active, len).state.active, index),
{
    let voice = state.voices[index]->0;
    assert(voice.wf());
    let left = FADE_CHUNKS - voice.fade_steps;
    let count = voice.chunk_count(len / 8);
    assert(8 * left < len);
    assert(count <= left);
    assert(8 * count < len);
    assert(survivor(voice, len) is None);
    law_each_voice_once(state, len);
    let after = rendered(state.voices, state.active, len).state;
    assert(state.voices[index] == Some(voice));
    assert(after.voices[index] == survivor(voice, len));
    if listed(after.active, index) {
        let j = choose|j: int|
            0 <= j < after.active.len() && entry_index(#[trigger] after.active[j]) == index;
        assert(after.voices[entry_index(after.active[j])] is Some);
    }
}

impl<'a, S, R> SamplerState<'a, S, R> {
    /// Every voice is steady.
    pub open spec fn steady(self) -> bool {
        forall|i: int|
            0 <= i < table_len() ==> (#[trigger] self.voices[i] matches Some(voice)
                ==> voice.steady())
    }
}

/// Steady voices never come to the end of their samples, and stay steady.
pub proof fn law_steady_voices_never_overrun<'a, S, R>(
    voices: Seq<Option<Samples<'a, S, R>>>,
    active: Seq<(usize, usize, usize)>,
    len: int,
)
    requires
        voices.len() == table_len(),
        (SamplerState { voices, active }).steady(),
        forall|j: int| 0 <= j < active.len() ==> entry_in_table(#[trigger] active[j]),
    ensures
        renders(voices, active, len),
        rendered(voices, active, len).state.steady(),
        rendered(voices, active, len).state.voices.len() == table_len(),
    decreases active.len(),
{
    if active.len() > 0 {
        let shorter = active.drop_last();
        assert forall|j: int| 0 <= j < shorter.len() implies entry_in_table(
            #[trigger] shorter[j],
        ) by {
            assert(shorter[j] == active[j]);
        }
        assert((SamplerState { voices, active: shorter }).steady()) by {
            assert forall|i: int| 0 <= i < table_len() implies (#[trigger] voices[i] matches Some(
                voice,
            ) ==> voice.steady()) by {
                assert((SamplerState { voices, active }).voices[i] == voices[i]);
            }
        }
        law_steady_voices_never_overrun(voices, shorter, len);
        let before = rendered(voices, shorter, len).state;
        let after = rendered(voices, active, len).state;
        let entry = active.last();
        assert(active[active.len() - 1] == entry);
        lemma_entry_index(entry, entry);
        let index = entry_index(entry);
        if before.voices[index] is Some {
            let voice = before.voices[index]->0;
            let count = voice.chunk_count(len / CHUNK_LEN as int);
            voice.lemma_steady_reads(count);
            voice.lemma_steady_played(count as nat);
            assert forall|i: int| 0 <= i < table_len() implies (
            #[trigger] after.voices[i] matches Some(voice) ==> voice.steady()) by {
                assert(before.voices[i] matches Some(voice) ==> voice.steady());
            }
        }
    }
}

/// The voices stay steady when a pipe starts whose sound is playable, and when
/// one fades out.
pub proof fn law_messages_keep_steady<'a, S, R>(
    state: SamplerState<'a, S, R>,
    register: usize,
    note: usize,
    sample_info: &'a SampleInfo<S, R>,
)
    requires
        state.wf(),
        state.steady(),
        register < NOTE_COUNT,
        note < REGISTER_COUNT,
        sample_info.playable(),
    ensures
        state.new_note(register, note, sample_info).steady(),
        state.stop(register as int, note as int).steady(),
{
    lemma_free_slot(state.voices, register as int, note as int, 1);
    let first = slot_index(register as int, note as int, 0);
    assert(state.voices[first] matches Some(voice) ==> voice.steady());
    let started = state.new_note(register, note, sample_info);
    assert forall|i: int| 0 <= i < table_len() implies (#[trigger] started.voices[i] matches Some(
        voice,
    ) ==> voice.steady()) by {
        assert(state.voices[i] matches Some(voice) ==> voice.steady());
    }
    let stopped = state.stop(register as int, note as int);
    assert forall|i: int| 0 <= i < table_len() implies (#[trigger] stopped.voices[i] matches Some(
        voice,
    ) ==> voice.steady()) by {
        assert(state.voices[i] matches Some(voice) ==> voice.steady());
    }
}

/// A pipe that stops fades out: the voice that was started last begins to fade,
/// wherever it is in its sound, goes on from there, and has as many chunks left as
/// before. Every other place of the table, and the list, stays as it is.
pub proof fn law_stop_fades_voice<'a, S, R>(
    state: SamplerState<'a, S, R>,
    register: int,
    note: int,
)
    requires
        state.wf(),
        0 <= register < 61,
        0 <= note < 128,
    ensures
        ({
            let place = (register * 128 + note) * 16;
            let after = state.stop(register, note);
            &&& after.active == state.active
            &&& after.voices.len() == state.voices.len()
            &&& forall|i: int|
                0 <= i < 61 * 128 * 16 && i != place ==> #[trigger] after.voices[i]
                    == state.voices[i]
            &&& state.voices[place] is None ==> after.voices[place] is None
            &&& state.voices[place] matches Some(voice) ==> {
                &&& after.voices[place] matches Some(fading)
                &&& fading.fade_out
                &&& fading.sample_info == voice.sample_info
                &&& fading.index == voice.index
                &&& fading.fade_steps == voice.fade_steps
            }
        }),
{
}

/// The voice of a pipe that stops ends after exactly the chunks it has left, of
/// 1352 since it began to fade.
pub proof fn law_stopped_voice_ends<'a, S, R>(
    state: SamplerState<'a, S, R>,
    register: int,
    note: int,
    voice: Samples<'a, S, R>,
    count: nat,
)
    requires
        state.wf(),
        0 <= register < 61,
        0 <= note < 128,
        state.voices[(register * 128 + note) * 16] == Some(voice),
        count <= 1352 - voice.fade_steps,
    ensures
        state.stop(register, note).voices[(register * 128 + note) * 16] matches Some(fading) && (
        fading.played(count).fade_steps >= 1352 <==> count == 1352 - voice.fade_steps),
{
    law_stop_fades_voice(state, register, note);
    let place = (register * 128 + note) * 16;
    assert(0 <= place < table_len());
    assert(state.voices[place] matches Some(voice) ==> voice.wf());
    let fading = state.stop(register, note).voices[place]->0;
    fading.lemma_played(count);
}

/// A pipe that starts has a new voice at the start of its sound. The voice that was
/// there before moves, as it is, to the first free place of the pipe; where none is
/// free it is dropped. All other voices stay, and the list gets one entry more: the
/// place that was taken.
pub proof fn law_new_note_starts_voice<'a, S, R>(
    state: SamplerState<'a, S, R>,
    register: usize,
    note: usize,
    sample_info: &'a SampleInfo<S, R>,
)
    requires
        state.wf(),
        register < 61,
        note < 61,
    ensures
        ({
            let first = (register * 128 + note) * 16;
            let after = state.new_note(register, note, sample_info);
            let entry = after.active.last();
            let slot = entry.2 as int;
            &&& after.voices.len() == state.voices.len()
            &&& after.voices[first] matches Some(voice)
            &&& voice.sample_info == sample_info
            &&& voice.index == 0
            &&& voice.fade_steps == 0
            &&& !voice.fade_out
            &&& after.active.drop_last() == state.active
            &&& entry.0 == register
            &&& entry.1 == note
            &&& forall|i: int|
                0 <= i < 61 * 128 * 16 && i != first && i != first + slot
                    ==> #[trigger] after.voices[i] == state.voices[i]
            &&& state.voices[first] is None ==> slot == 0
            &&& (forall|k: int|
                first < k < first + 16 ==> (#[trigger] state.voices[k]) is Some) ==> slot == 0
            &&& state.voices[first] is Some && slot == 0 ==> forall|k: int|
                first < k < first + 16 ==> (#[trigger] state.voices[k]) is Some
            &&& slot > 0 ==> {
                &&& slot < 16
                &&& state.voices[first + slot] is None
                &&& after.voices[first + slot] == state.voices[first]
                &&& forall|k: int|
                    first < k < first + slot ==> (#[trigger] state.voices[k]) is Some
            }
        }),
{
    let first = (register * 128 + note) * 16;
    let after = state.new_note(register, note, sample_info);
    lemma_first_free(state.voices, register as int, note as int, 1);
    assert(after.active.drop_last() =~= state.active);
    if forall|k: int| first < k < first + 16 ==> (#[trigger] state.voices[k]) is Some {
        if free_slot(state.voices, register as int, note as int, 1) is Some {
            let x = free_slot(state.voices, register as int, note as int, 1)->0;
            assert(state.voices[first + x] is Some);
        }
    }
}

/// What `free_slot` finds is the first free place from `slot` on; where it finds
/// nothing, all are taken.
proof fn lemma_first_free<'a, S, R>(
    voices: Seq<Option<Samples<'a, S, R>>>,
    register: int,
    note: int,
    slot: int,
)
    requires
        0 <= slot,
    ensures
        ({
            let first = (register * 128 + note) * 16;
            match free_slot(voices, register, note, slot) {
                Some(x) => {
                    &&& slot <= x < 16
                    &&& voices[first + x] is None
                    &&& forall|k: int|
                        first + slot <= k < first + x ==> (#[trigger] voices[k]) is Some
                },
                None => forall|k: int|
                    first + slot <= k < first + 16 ==> (#[trigger] voices[k]) is Some,
            }
        }),
    decreases 16 - slot,
{
    if slot < 16 && voices[slot_index(register, note, slot)] is Some {
        lemma_first_free(voices, register, note, slot + 1);
    }
}

/// A voice starts at the first frame of its sound, at its full volume.
pub proof fn law_voice_starts<'a, S, R>(sample_info: &'a SampleInfo<S, R>)
    ensures
        Samples::started(sample_info).sample_info == sample_info,
        Samples::started(sample_info).index == 0,
        Samples::started(sample_info).fade_steps == 0,
        !Samples::started(sample_info).fade_out,
{
}

/// A voice plays four frames at a time: a chunk starts at the frame that comes next
/// and says how far the voice has faded; the chunk after it starts four frames on,
/// or as many frames further back as the loop is long. Only a voice that fades
/// comes nearer to its end.
pub proof fn law_voice_steps<'a, S, R>(voice: Samples<'a, S, R>)
    requires
        voice.wf(),
        voice.readable(),
    ensures
        voice.chunk().sample_info == voice.sample_info,
        voice.chunk().start == 2 * voice.index,
        voice.chunk().fade is Some <==> voice.fade_out,
        voice.chunk().fade matches Some(steps) ==> steps == voice.fade_steps,
        voice.advanced().sample_info == voice.sample_info,
        voice.advanced().fade_out == voice.fade_out,
        voice.advanced().fade_steps - voice.fade_steps == if voice.fade_out {
            1int
        } else {
            0
        },
        voice.index + 4 < voice.sample_info.loop_end ==> voice.advanced().index == voice.index + 4,
        voice.index + 4 >= voice.sample_info.loop_end ==> voice.advanced().index + (
        voice.sample_info.loop_end - voice.sample_info.loop_start) == voice.index + 4,
        voice.played(0) == voice,
        voice.played(1) == voice.advanced(),
{
    assert(voice.sample_info.samples@.len() == voice.sample_info.samples.len());
    assert(voice.played(1) == voice.played(0).advanced());
}

/// A voice has ended when it has faded for 1352 chunks. A chunk can be read when its
/// eight samples are there, and the loop does not end before it starts where the
/// chunk comes to its end.
pub proof fn law_voice_limits<'a, S, R>(voice: Samples<'a, S, R>)
    ensures
        voice.ended() <==> voice.fade_steps >= 1352,
        voice.readable() <==> {
            &&& 2 * voice.index + 8 <= voice.sample_info.samples@.len()
            &&& voice.index + 4 < voice.sample_info.loop_end || voice.sample_info.loop_start
                <= voice.sample_info.loop_end
        },
{
}

/// Of the chunks that are wanted, a voice plays as many as there are until it ends.
pub proof fn law_voice_plays_until_it_ends<'a, S, R>(voice: Samples<'a, S, R>, wanted: int)
    requires
        voice.wf(),
        0 <= wanted,
    ensures
        0 <= voice.chunk_count(wanted) <= wanted,
        voice.chunk_count(wanted) < wanted ==> voice.played(
            voice.chunk_count(wanted) as nat,
        ).fade_steps >= 1352,
        forall|k: nat|
            k < voice.chunk_count(wanted) ==> (#[trigger] voice.played(k)).fade_steps < 1352,
        voice.mixes(wanted).len() == wanted,
        forall|k: int|
            0 <= k < wanted && k <= usize::MAX ==> (#[trigger] voice.mixes(wanted)[k]).out == k
                && voice.mixes(wanted)[k].chunk == voice.played(k as nat).chunk(),
{
    let count = voice.chunk_count(wanted);
    voice.lemma_played(count as nat);
    assert forall|k: nat| k < count implies (#[trigger] voice.played(k)).fade_steps < 1352 by {
        voice.lemma_played(k);
    }
}

/// Each pipe has sixteen places of its own.
pub proof fn law_places_differ(
    a: (usize, usize, usize),
    b: (usize, usize, usize),
)
    requires
        entry_in_table(a),
        entry_in_table(b),
    ensures
        0 <= entry_index(a) < 61 * 128 * 16,
        entry_index(a) == entry_index(b) ==> a == b,
        entry_index(a) == (a.0 * 128 + a.1) * 16 + a.2,
{
    lemma_entry_index(a, b);
}

/// The places of the table are those of 61 registers with 128 keys, sixteen each.
pub proof fn law_table(entry: (usize, usize, usize))
    ensures
        entry_in_table(entry) <==> entry.0 < 61 && entry.1 < 128 && entry.2 < 16,
        table_len() == 61 * 128 * 16,
{
}

/// What the voices of a list add to one chunk of the output.
proof fn lemma_mixed_at<'a, S, R>(
    voices: Seq<Option<Samples<'a, S, R>>>,
    active: Seq<(usize, usize, usize)>,
    len: int,
    out: int,
)
    requires
        0 <= len <= usize::MAX,
        0 <= out,
        forall|j: int|
            0 <= j < active.len() ==> (voices[entry_index(#[trigger] active[j])] matches Some(voice)
                && voice.wf()),
    ensures
        chunks_at(mixed(voices, active, len), out) == active.filter(
            |entry: (usize, usize, usize)|
                out < voices[(entry.0 * 128 + entry.1) * 16 + entry.2]->0.chunk_count(len / 8),
        ).map_values(
            |entry: (usize, usize, usize)|
                voices[(entry.0 * 128 + entry.1) * 16 + entry.2]->0.played(out as nat).chunk(),
        ),
    decreases active.len(),
{
    let sounds = |entry: (usize, usize, usize)|
        out < voices[(entry.0 * 128 + entry.1) * 16 + entry.2]->0.chunk_count(len / 8);
    let chunk = |entry: (usize, usize, usize)|
        voices[(entry.0 * 128 + entry.1) * 16 + entry.2]->0.played(out as nat).chunk();
    reveal(Seq::filter);
    if active.len() == 0 {
        assert(chunks_at(mixed(voices, active, len), out) =~= active.filter(sounds).map_values(
            chunk,
        ));
    } else {
        let shorter = active.drop_last();
        let entry = active.last();
        assert forall|j: int| 0 <= j < shorter.len() implies (voices[entry_index(
            #[trigger] shorter[j],
        )] matches Some(voice) && voice.wf()) by {
            assert(shorter[j] == active[j]);
        }
        lemma_mixed_at(voices, shorter, len, out);
        assert(active[active.len() - 1] == entry);
        let voice = voices[entry_index(entry)]->0;
        let count = voice.chunk_count(len / 8);
        lemma_chunks_at_adds(mixed(voices, shorter, len), voice.mixes(count), out);
        lemma_chunks_at_voice(voice, count, out);
        assert(chunks_at(mixed(voices, active, len), out) =~= active.filter(sounds).map_values(
            chunk,
        ));
    }
}

/// Every voice is heard: each chunk of the output gets, in the order of the list,
/// the chunk of each voice that plays so long, and nothing else. A voice that fills
/// the buffer goes on from where it is then; any other is gone.
pub proof fn law_every_voice_is_heard<'a, S, R>(
    state: SamplerState<'a, S, R>,
    len: int,
    out: int,
    place: int,
)
    requires
        state.wf(),
        state.tidy(),
        0 <= len <= usize::MAX,
        0 <= out,
        0 <= place < 61 * 128 * 16,
    ensures
        chunks_at(rendered(state.voices, state.active, len).mix, out) == state.active.filter(
            |entry: (usize, usize, usize)|
                out < state.voices[(entry.0 * 128 + entry.1) * 16 + entry.2]->0.chunk_count(
                    len / 8,
                ),
        ).map_values(
            |entry: (usize, usize, usize)|
                state.voices[(entry.0 * 128 + entry.1) * 16 + entry.2]->0.played(
                    out as nat,
                ).chunk(),
        ),
        state.voices[place] is None ==> rendered(
            state.voices,
            state.active,
            len,
        ).state.voices[place] is None,
        state.voices[place] matches Some(voice) ==> rendered(
            state.voices,
            state.active,
            len,
        ).state.voices[place] == if 8 * voice.chunk_count(len / 8) == len {
            Some(voice.played((len / 8) as nat))
        } else {
            None
        },
{
    law_each_voice_once(state, len);
    assert forall|j: int| 0 <= j < state.active.len() implies (state.voices[entry_index(
        #[trigger] state.active[j],
    )] matches Some(voice) && voice.wf()) by {
        lemma_entry_index(state.active[j], state.active[j]);
        assert(state.voices[entry_index(state.active[j])] is Some);
    }
    lemma_mixed_at(state.voices, state.active, len, out);
    let after = rendered(state.voices, state.active, len).state;
    assert(after.voices[place] == match state.voices[place] {
        Some(voice) => survivor(voice, len),
        None => None,
    });
}

/// A buffer is refused only for a voice that would read past its samples.
pub proof fn law_overruns_only_past_samples<'a, S, R>(
    state: SamplerState<'a, S, R>,
    len: int,
    count: nat,
)
    requires
        state.wf(),
        state.tidy(),
        count <= state.active.len(),
    ensures
        renders(state.voices, state.active.take(count as int), len) <==> forall|j: int|
            0 <= j < count ==> {
                let voice = state.voices[entry_index(#[trigger] state.active[j])]->0;
                voice.reads(voice.chunk_count(len / 8))
            },
    decreases count,
{
    let done = state.active.take(count as int);
    if count > 0 {
        let before = (count - 1) as nat;
        law_overruns_only_past_samples(state, len, before);
        let earlier = state.active.take(before as int);
        let entry = state.active[before as int];
        let index = entry_index(entry);
        assert(done.drop_last() =~= earlier);
        assert(done.last() == entry);
        lemma_each_voice_once(state, len, before);
        lemma_entry_index(entry, entry);
        assert(!listed(earlier, index)) by {
            if listed(earlier, index) {
                let j = choose|j: int|
                    0 <= j < earlier.len() && entry_index(#[trigger] earlier[j]) == index;
                assert(earlier[j] == state.active[j]);
                lemma_entry_index(state.active[j], entry);
            }
        }
        assert(rendered(state.voices, earlier, len).state.voices[index] == state.voices[index]);
        assert(state.voices[entry_index(state.active[before as int])] is Some);
        if renders(state.voices, done, len) {
            assert forall|j: int| 0 <= j < count implies {
                let voice = state.voices[entry_index(#[trigger] state.active[j])]->0;
                voice.reads(voice.chunk_count(len / 8))
            } by {
                if j == before {
                    assert(state.active[j] == entry);
                }
            }
        }
        if forall|j: int|
            0 <= j < count ==> {
                let voice = state.voices[entry_index(#[trigger] state.active[j])]->0;
                voice.reads(voice.chunk_count(len / 8))
            } {
            let voice = state.voices[entry_index(state.active[before as int])]->0;
            assert(voice.reads(voice.chunk_count(len / 8)));
        }
    }
}

impl<'a, S, R> Sampler<'a, S, R> {
    /// The sampler takes every message for a pipe of the first 61 registers, and the
    /// start of any pipe of the organ that has no sound.
    pub proof fn law_accepted_messages(self, register: u8, note: u8)
        ensures
            self.accepts(SampleMessage::NewNote((register, note))) <==> note < 61 && (register < 61
                || (register < 128 && self.bank().sample(register as int, note as int) is None)),
            self.accepts(SampleMessage::Stop(register, note)) <==> register < 61 && note < 128,
    {
    }
}

/// A voice is read chunk by chunk: so many chunks lie inside the samples as do one
/// after the other.
pub proof fn law_reads_chunk_by_chunk<'a, S, R>(voice: Samples<'a, S, R>, count: nat)
    ensures
        voice.reads(0),
        voice.reads((count + 1) as int) <==> voice.reads(count as int) && voice.played(
            count,
        ).readable(),
{
    if voice.reads(count as int) && voice.played(count).readable() {
        assert forall|k: nat| k < count + 1 implies #[trigger] voice.played(k).readable() by {
            if k < count {
                assert(voice.played(k).readable());
            }
        }
    }
    if voice.reads((count + 1) as int) {
        assert(voice.played(count).readable());
    }
}

/// The entries of the list are played one after the other, each on what the ones
/// before it have left, also where an entry stands in the list again: a place without
/// a voice adds nothing and its entry goes; a voice adds its chunks, and stays with
/// its entry exactly when they fill the buffer.
pub proof fn law_entries_are_played_in_turn<'a, S, R>(
    voices: Seq<Option<Samples<'a, S, R>>>,
    active: Seq<(usize, usize, usize)>,
    entry: (usize, usize, usize),
    len: int,
)
    requires
        0 <= len,
    ensures
        rendered(voices, Seq::<(usize, usize, usize)>::empty(), len).state.voices == voices,
        rendered(voices, Seq::<(usize, usize, usize)>::empty(), len).mix.len() == 0,
        rendered(voices, Seq::<(usize, usize, usize)>::empty(), len).state.active.len() == 0,
        renders(voices, Seq::<(usize, usize, usize)>::empty(), len),
        ({
            let place = (entry.0 * 128 + entry.1) * 16 + entry.2;
            let before = rendered(voices, active, len);
            let after = rendered(voices, active.push(entry), len);
            match before.state.voices[place] {
                None => {
                    &&& after == before
                    &&& renders(voices, active.push(entry), len) <==> renders(voices, active, len)
                },
                Some(voice) => {
                    let count = voice.chunk_count(len / 8);
                    &&& after.mix == before.mix + voice.mixes(count)
                    &&& 8 * count == len ==> {
                        &&& after.state.voices == before.state.voices.update(
                            place,
                            Some(voice.played(count as nat)),
                        )
                        &&& after.state.active == before.state.active.push(entry)
                    }
                    &&& 8 * count != len ==> {
                        &&& after.state.voices == before.state.voices.update(place, None)
                        &&& after.state.active == before.state.active
                    }
                    &&& renders(voices, active.push(entry), len) <==> renders(voices, active, len)
                        && voice.reads(count)
                },
            }
        }),
{
    assert(active.push(entry).drop_last() =~= active);
    assert(active.push(entry).last() == entry);
}

} // verus!
