//! A recording of a pipe, as its file describes it.
use crate::order::midi_note;
use crate::riff_file::{
    complete_without_smpl, law_appended_smpl_is_read, read_smpl, smpl_of, with_smpl, RiffError,
};
use crate::sample_info::{law_same_recording_same_sound, SampleBank, SampleInfo};
use crate::smpl::{
    comparable, is_comparable, law_distance_is_difference, law_own_note_is_in_tune,
    semitone_distance, semitones, signed, SmplChunk,
};
use crate::{NOTE_COUNT, NOTE_START};
use vstd::prelude::*;

verus! {

/// How far a recording is from the pitch of its key, and the frames between
/// which it repeats, the second one excluded. The fine tuning is a fraction of
/// a semitone, in parts of 2 to the power of 32.
#[derive(Clone, Copy, Debug, PartialEq, Eq)]
pub struct Recording {
    pub semitones: i32,
    pub fine_tune: u32,
    pub loop_start: usize,
    pub loop_end: usize,
}

/// What the file of a key's recording says of it. A file without a `smpl` chunk
/// is no recording.
pub open spec fn recording_of(file: Seq<u8>, note: int) -> Result<Option<Recording>, RiffError> {
    match smpl_of(file) {
        Err(error) => Err(error),
        Ok(None) => Ok(None),
        Ok(Some(chunk)) => if chunk.loop_end >= usize::MAX {
            Err(RiffError::Loop)
        } else if !comparable(signed(chunk.note), note + NOTE_START) {
            Err(RiffError::Pitch)
        } else {
            Ok(
                Some(
                    Recording {
                        semitones: semitones(signed(chunk.note), note + NOTE_START) as i32,
                        fine_tune: chunk.fine_tune,
                        loop_start: chunk.loop_start as usize,
                        loop_end: (chunk.loop_end + 1) as usize,
                    },
                ),
            )
        },
    }
}

/// Reads the file of a key's recording.
pub fn read_recording(file: &[u8], note: usize) -> (recording: Result<
    Option<Recording>,
    RiffError,
>)
    requires
        note < NOTE_COUNT,
    ensures
        recording == recording_of(file@, note as int),
{
    match read_smpl(file) {
        Err(error) => Err(error),
        Ok(None) => Ok(None),
        Ok(Some(chunk)) => {
            let number = midi_note(note);
            if chunk.loop_end as usize == usize::MAX {
                return Err(RiffError::Loop);
            }
            if !is_comparable(chunk.note, number) {
                return Err(RiffError::Pitch);
            }
            let (loop_start, loop_end) = chunk.loop_frames();
            Ok(
                Some(
                    Recording {
                        semitones: semitone_distance(chunk.note, number),
                        fine_tune: chunk.fine_tune,
                        loop_start,
                        loop_end,
                    },
                ),
            )
        },
    }
}

/// A recording that is stored for a key, with its loop, is read back in tune and
/// with the same loop.
pub proof fn law_stored_recording_is_in_tune(
    file: Seq<u8>,
    count: nat,
    note: int,
    loop_start: int,
    loop_end: int,
)
    requires
        complete_without_smpl(file, count),
        0 <= note < NOTE_COUNT,
        0 <= loop_start < 0x1_0000_0000,
        0 < loop_end < 0x1_0000_0000,
        loop_end <= usize::MAX,
        file.len() + 60 < 0x1_0000_0000,
    ensures
        recording_of(with_smpl(file, note + NOTE_START, loop_start, loop_end), note) == Ok::<
            Option<Recording>,
            RiffError,
        >(
            Some(
                Recording {
                    semitones: 0,
                    fine_tune: 0,
                    loop_start: loop_start as usize,
                    loop_end: loop_end as usize,
                },
            ),
        ),
{
    law_appended_smpl_is_read(file, count, note + NOTE_START, loop_start, loop_end);
    law_own_note_is_in_tune((note + NOTE_START) as u32);
}

/// An organ that is loaded again sounds the same: a sound that was stored for a
/// key is read back in tune, and gives the pipe the samples and the loop that it
/// had, if the file keeps the samples.
pub proof fn law_reloaded_sound_is_the_same<S, R>(
    file: Seq<u8>,
    count: nat,
    register: int,
    note: int,
    first: SampleBank<S, R>,
    sound: SampleInfo<S, R>,
    second: SampleBank<S, R>,
    again: SampleInfo<S, R>,
    recording: Recording,
)
    requires
        complete_without_smpl(file, count),
        0 <= note < NOTE_COUNT,
        sound.loop_start < 0x1_0000_0000,
        0 < sound.loop_end < 0x1_0000_0000,
        file.len() + 60 < 0x1_0000_0000,
        first.holds(register, note, sound),
        recording_of(
            with_smpl(
                file,
                note + NOTE_START,
                sound.loop_start as int,
                sound.loop_end as int,
            ),
            note,
        ) == Ok::<Option<Recording>, RiffError>(Some(recording)),
        again.samples@ == sound.samples@,
        again.loop_start == recording.loop_start,
        again.loop_end == recording.loop_end,
        second.holds(register, note, again),
    ensures
        recording.semitones == 0,
        recording.fine_tune == 0,
        first.sample(register, note)->0.samples@ == second.sample(register, note)->0.samples@,
        first.sample(register, note)->0.loop_start == second.sample(register, note)->0.loop_start,
        first.sample(register, note)->0.loop_end == second.sample(register, note)->0.loop_end,
{
    law_stored_recording_is_in_tune(
        file,
        count,
        note,
        sound.loop_start as int,
        sound.loop_end as int,
    );
    law_same_recording_same_sound(first, second, register, note, sound, again);
}

/// What a file says of a key's recording follows from its `smpl` chunk: the loop, with
/// the frame behind its last one for its end, the fine tuning, and the distance, which
/// is the difference of the notes give or take whole octaves. A note too low to be
/// compared is an error.
pub proof fn law_recording_says(file: Seq<u8>, note: int, chunk: SmplChunk)
    requires
        smpl_of(file) == Ok::<Option<SmplChunk>, RiffError>(Some(chunk)),
        0 <= note < 61,
        chunk.loop_end < usize::MAX,
    ensures
        ({
            let recorded = if chunk.note < 0x8000_0000 {
                chunk.note as int
            } else {
                chunk.note - 0x1_0000_0000
            };
            let difference = recorded - (note + 36);
            if difference < i32::MIN {
                recording_of(file, note) == Err::<Option<Recording>, RiffError>(RiffError::Pitch)
            } else {
                &&& recording_of(file, note) matches Ok(Some(recording))
                &&& recording.loop_start == chunk.loop_start
                &&& recording.loop_end == chunk.loop_end + 1
                &&& recording.fine_tune == chunk.fine_tune
                &&& -6 <= recording.semitones <= 5
                &&& (recording.semitones - difference) % 12 == 0
            }
        }),
{
    law_distance_is_difference(signed(chunk.note), note + NOTE_START);
}

/// A file without a `smpl` chunk is no recording, and one whose `smpl` chunk cannot be
/// read is an error.
pub proof fn law_other_files_are_no_recordings(file: Seq<u8>, note: int, error: RiffError)
    ensures
        smpl_of(file) == Ok::<Option<SmplChunk>, RiffError>(None) ==> recording_of(file, note)
            == Ok::<Option<Recording>, RiffError>(None),
        smpl_of(file) == Err::<Option<SmplChunk>, RiffError>(error) ==> recording_of(file, note)
            == Err::<Option<Recording>, RiffError>(error),
{
}

} // verus!
