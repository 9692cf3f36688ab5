//! The `smpl` chunk of a recording: its pitch and its loop.
use crate::le_bytes::{
    law_u32_round_trip, le_bytes, le_u32, low_u32, push_u32, read_u32, truncate_u32,
};
use vstd::prelude::*;

verus! {

/// Bytes of a `smpl` chunk up to the end of its first loop.
pub const SMPL_MIN_LEN: usize = 52;

/// What a `smpl` chunk says of a recording. The end of the loop is its last
/// frame.
#[derive(Clone, Copy, Debug, PartialEq, Eq)]
pub struct SmplChunk {
    pub note: u32,
    pub fine_tune: u32,
    pub loop_start: u32,
    pub loop_end: u32,
}

/// Word `index` of the contents of a chunk.
pub open spec fn word(contents: Seq<u8>, index: int) -> int {
    le_u32(contents, 4 * index)
}

impl SmplChunk {
    /// Reads the contents of a chunk. There is nothing to read where they end
    /// before the first loop does.
    pub fn parse(contents: &[u8]) -> (chunk: Option<SmplChunk>)
        ensures
            match chunk {
                Some(chunk) => {
                    &&& contents@.len() >= SMPL_MIN_LEN
                    &&& chunk.note == word(contents@, 3)
                    &&& chunk.fine_tune == word(contents@, 4)
                    &&& chunk.loop_start == word(contents@, 11)
                    &&& chunk.loop_end == word(contents@, 12)
                    &&& chunk.note == contents@[12] + 256 * contents@[13] + 65536 * contents@[14]
                        + 16777216 * contents@[15]
                    &&& chunk.fine_tune == contents@[16] + 256 * contents@[17] + 65536
                        * contents@[18] + 16777216 * contents@[19]
                    &&& chunk.loop_start == contents@[44] + 256 * contents@[45] + 65536
                        * contents@[46] + 16777216 * contents@[47]
                    &&& chunk.loop_end == contents@[48] + 256 * contents@[49] + 65536
                        * contents@[50] + 16777216 * contents@[51]
                },
                None => contents@.len() < SMPL_MIN_LEN,
            },
    {
        if contents.len() < SMPL_MIN_LEN {
            return None;
        }
        Some(
            SmplChunk {
                note: read_u32(contents, 12),
                fine_tune: read_u32(contents, 16),
                loop_start: read_u32(contents, 44),
                loop_end: read_u32(contents, 48),
            },
        )
    }

    /// The first frame of the loop, and the first one behind it.
    pub fn loop_frames(&self) -> (frames: (usize, usize))
        requires
            self.loop_end < usize::MAX,
        ensures
            frames.0 == self.loop_start,
            frames.1 == self.loop_end + 1,
    {
        (self.loop_start as usize, 1 + self.loop_end as usize)
    }
}

/// A 32-bit number, read as signed.
pub open spec fn signed(value: u32) -> int {
    if value < 0x8000_0000 {
        value as int
    } else {
        value - 0x1_0000_0000
    }
}

/// How many semitones a recording of `smpl_note` is above `actual_note`, give or
/// take octaves: from six below to five above.
pub open spec fn semitones(smpl_note: int, actual_note: int) -> int {
    (smpl_note - actual_note + 6) % 12 - 6
}

/// The distance between the two notes can be told in 32 bits.
pub open spec fn comparable(smpl_note: int, actual_note: int) -> bool {
    i32::MIN <= smpl_note - actual_note && smpl_note - actual_note + 6 <= i32::MAX
}

/// Whether the distance between the two notes can be told.
pub fn is_comparable(smpl_note: u32, actual_note: u32) -> (comparable: bool)
    requires
        actual_note <= i32::MAX,
    ensures
        comparable == self::comparable(signed(smpl_note), actual_note as int),
        smpl_note < 0x8000_0000 ==> comparable == (smpl_note - actual_note + 6 <= i32::MAX),
        smpl_note >= 0x8000_0000 ==> comparable == (smpl_note - 0x1_0000_0000 - actual_note
            >= i32::MIN),
{
    let wide: i64 = if smpl_note < 0x8000_0000 {
        smpl_note as i64
    } else {
        smpl_note as i64 - 0x1_0000_0000
    };
    let distance: i64 = wide - actual_note as i64;
    i32::MIN as i64 <= distance && distance + 6 <= i32::MAX as i64
}

/// How many semitones a recording of `smpl_note` is above `actual_note`, give or
/// take octaves.
pub fn semitone_distance(smpl_note: u32, actual_note: u32) -> (distance: i32)
    requires
        actual_note <= i32::MAX,
        comparable(signed(smpl_note), actual_note as int),
    ensures
        -6 <= distance < 6,
        distance == semitones(signed(smpl_note), actual_note as int),
        smpl_note < 0x8000_0000 ==> (distance - (smpl_note - actual_note)) % 12 == 0,
        smpl_note >= 0x8000_0000 ==> (distance - (smpl_note - 0x1_0000_0000 - actual_note)) % 12
            == 0,
{
    let wide: i64 = if smpl_note < 0x8000_0000 {
        smpl_note as i64
    } else {
        smpl_note as i64 - 0x1_0000_0000
    };
    let shifted: i64 = wide - actual_note as i64 + 6;
    // A multiple of twelve that makes the number positive changes nothing.
    let positive: u64 = (shifted + 12 * 0x1_0000_0000) as u64;
    (positive % 12) as i32 - 6
}

/// The distance of a recording from its key is the difference of their numbers,
/// give or take whole octaves, and no more than half an octave.
pub proof fn law_distance_is_difference(smpl_note: int, actual_note: int)
    ensures
        -6 <= semitones(smpl_note, actual_note) <= 5,
        (semitones(smpl_note, actual_note) - (smpl_note - actual_note)) % 12 == 0,
        -6 <= smpl_note - actual_note <= 5 ==> semitones(smpl_note, actual_note) == smpl_note
            - actual_note,
{
}

/// A recording that is a semitone higher is a semitone further from its key,
/// until it is nearer from below.
pub proof fn law_distance_steps(smpl_note: int, actual_note: int)
    ensures
        semitones(smpl_note + 1, actual_note) == semitones(smpl_note, actual_note) + 1 || (
        semitones(smpl_note, actual_note) == 5 && semitones(smpl_note + 1, actual_note) == -6),
        semitones(smpl_note + 1, actual_note + 1) == semitones(smpl_note, actual_note),
{
}

/// A number of 32 bits and its reading as signed are the same but for the
/// numbers in the upper half, which lie below zero.
pub proof fn law_signed_wraps(value: u32)
    ensures
        -0x8000_0000 <= signed(value) < 0x8000_0000,
        (signed(value) - value) % 0x1_0000_0000 == 0,
{
}

/// A recording that is some octaves away from another is as far from a note as
/// that one.
pub proof fn law_octaves_do_not_count(smpl_note: int, actual_note: int, octaves: int)
    ensures
        semitones(smpl_note + 12 * octaves, actual_note) == semitones(smpl_note, actual_note),
{
}

/// A recording of a note is in tune with it.
pub proof fn law_own_note_is_in_tune(note: u32)
    requires
        note <= i32::MAX,
    ensures
        semitones(signed(note), note as int) == 0,
{
}

/// The words of a `smpl` chunk for a recording of `note` with one loop: the
/// size of the contents comes first.
pub open spec fn smpl_words(note: int, loop_start: int, loop_end: int) -> Seq<int> {
    seq![60, 0, 0, 0, note, 0, 0, 0, 1, 0, 0, 0, loop_start, loop_end, 0, 0]
}

/// The bytes of the first `count` words.
pub open spec fn words_bytes(words: Seq<int>, count: int) -> Seq<u8>
    decreases count,
{
    if count <= 0 {
        Seq::empty()
    } else {
        words_bytes(words, count - 1) + le_bytes(words[count - 1])
    }
}

/// The four letters of the chunk.
pub open spec fn smpl_id() -> Seq<u8> {
    seq![0x73u8, 0x6du8, 0x70u8, 0x6cu8]
}

/// A whole `smpl` chunk: its letters, the size of its contents, and its
/// contents. The end of the loop is the first frame behind it.
pub open spec fn smpl_bytes(note: int, loop_start: int, loop_end: int) -> Seq<u8> {
    smpl_id() + words_bytes(
        smpl_words(note, low_u32(loop_start), low_u32(loop_end) - 1),
        16,
    )
}

/// Writes a `smpl` chunk for a recording of `note` that repeats the frames from
/// `loop_start` to before `loop_end`.
pub fn smpl_chunk(note: u32, loop_start: usize, loop_end: usize) -> (bytes: Vec<u8>)
    requires
        low_u32(loop_end as int) > 0,
    ensures
        bytes@ == smpl_bytes(note as int, loop_start as int, loop_end as int),
        bytes@.len() == 68,
{
    let words: [u32; 16] = [
        60,
        0,
        0,
        0,
        note,
        0,
        0,
        0,
        1,
        0,
        0,
        0,
        truncate_u32(loop_start),
        truncate_u32(loop_end) - 1,
        0,
        0,
    ];
    let ghost expected = smpl_words(
        note as int,
        low_u32(loop_start as int),
        low_u32(loop_end as int) - 1,
    );
    let mut bytes: Vec<u8> = Vec::new();
    bytes.push(0x73);
    bytes.push(0x6d);
    bytes.push(0x70);
    bytes.push(0x6c);
    assert(bytes@ =~= smpl_id() + words_bytes(expected, 0));
    let mut i: usize = 0;
    while i < 16
        invariant
            i <= 16,
            forall|k: int| 0 <= k < 16 ==> words@[k] == expected[k],
            bytes@ == smpl_id() + words_bytes(expected, i as int),
            bytes@.len() == 4 + 4 * i,
        decreases 16 - i,
    {
        push_u32(&mut bytes, words[i]);
        assert(bytes@ =~= smpl_id() + words_bytes(expected, i + 1));
        i = i + 1;
    }
    bytes
}

/// Where the bytes of a word stand.
proof fn lemma_words_bytes(words: Seq<int>, count: int, index: int)
    requires
        0 <= index < count <= words.len(),
        0 <= words[index] < 0x1_0000_0000,
    ensures
        words_bytes(words, count).len() == 4 * count,
        le_u32(words_bytes(words, count), 4 * index) == words[index],
    decreases count,
{
    let all = words_bytes(words, count);
    let last = le_bytes(words[count - 1]);
    let earlier = words_bytes(words, count - 1);
    lemma_words_bytes_len(words, count - 1);
    assert(all == earlier + last);
    if index < count - 1 {
        lemma_words_bytes(words, count - 1, index);
        assert(forall|k: int| 0 <= k < 4 * (count - 1) ==> all[k] == earlier[k]);
    } else {
        law_u32_round_trip(words[index]);
        assert(forall|k: int| 0 <= k < 4 ==> all[4 * index + k] == last[k]);
        assert(all[4 * index] == last[0]);
        assert(all[4 * index + 1] == last[1]);
        assert(all[4 * index + 2] == last[2]);
        assert(all[4 * index + 3] == last[3]);
    }
}

proof fn lemma_words_bytes_len(words: Seq<int>, count: int)
    requires
        0 <= count,
    ensures
        words_bytes(words, count).len() == 4 * count,
    decreases count,
{
    if count > 0 {
        lemma_words_bytes_len(words, count - 1);
    }
}

/// What a reader finds in the contents of a chunk that was written: the note,
/// no fine tuning, and the loop, whose end is the frame before the one it was
/// written for.
pub proof fn law_smpl_round_trip(note: int, loop_start: int, loop_end: int)
    requires
        0 <= note < 0x1_0000_0000,
        low_u32(loop_end) > 0,
    ensures
        ({
            let bytes = smpl_bytes(note, loop_start, loop_end);
            let contents = bytes.skip(8);
            &&& bytes.len() == 68
            &&& bytes.take(4) == smpl_id()
            &&& le_u32(bytes, 4) == contents.len()
            &&& contents.len() >= SMPL_MIN_LEN
            &&& word(contents, 3) == note
            &&& word(contents, 4) == 0
            &&& word(contents, 11) == low_u32(loop_start)
            &&& word(contents, 12) + 1 == low_u32(loop_end)
        }),
{
    let words = smpl_words(note, low_u32(loop_start), low_u32(loop_end) - 1);
    let body = words_bytes(words, 16);
    let bytes = smpl_bytes(note, loop_start, loop_end);
    let contents = bytes.skip(8);
    lemma_words_bytes_len(words, 16);
    lemma_words_bytes(words, 16, 0);
    lemma_words_bytes(words, 16, 4);
    lemma_words_bytes(words, 16, 5);
    lemma_words_bytes(words, 16, 12);
    lemma_words_bytes(words, 16, 13);
    assert(bytes.take(4) =~= smpl_id());
    assert(forall|k: int| 0 <= k < 64 ==> bytes[4 + k] == body[k]);
    assert(forall|k: int| 0 <= k < 60 ==> contents[k] == body[k + 4]);
}

/// A chunk that is written has its letters, its length, one loop, and zeros
/// wherever it does not hold the note or the frames of the loop.
#[verifier::spinoff_prover]
pub proof fn law_smpl_layout(note: int, loop_start: int, loop_end: int)
    requires
        0 <= note < 0x1_0000_0000,
        0 <= loop_start < 0x1_0000_0000,
        0 < loop_end < 0x1_0000_0000,
    ensures
        ({
            let bytes = smpl_bytes(note, loop_start, loop_end);
            &&& bytes.len() == 68
            &&& bytes[0] == 0x73 && bytes[1] == 0x6d && bytes[2] == 0x70 && bytes[3] == 0x6c
            &&& le_u32(bytes, 4) == 60
            &&& le_u32(bytes, 20) == note
            &&& le_u32(bytes, 36) == 1
            &&& le_u32(bytes, 52) == loop_start
            &&& le_u32(bytes, 56) == loop_end - 1
            &&& forall|i: int|
                0 <= i < 15 && i != 3 && i != 7 && i != 11 && i != 12 ==> #[trigger] le_u32(
                    bytes,
                    8 + 4 * i,
                ) == 0
        }),
{
    let bytes = smpl_bytes(note, loop_start, loop_end);
    let words = smpl_words(note, loop_start, loop_end - 1);
    lemma_smpl_word(note, loop_start, loop_end, 0);
    lemma_smpl_word(note, loop_start, loop_end, 4);
    lemma_smpl_word(note, loop_start, loop_end, 8);
    lemma_smpl_word(note, loop_start, loop_end, 12);
    lemma_smpl_word(note, loop_start, loop_end, 13);
    assert forall|i: int|
        0 <= i < 15 && i != 3 && i != 7 && i != 11 && i != 12 implies #[trigger] le_u32(
        bytes,
        8 + 4 * i,
    ) == 0 by {
        lemma_smpl_word(note, loop_start, loop_end, i + 1);
        assert(4 + 4 * (i + 1) == 8 + 4 * i);
        assert(words[i + 1] == 0);
    }
}

/// Where a word of a chunk that is written stands.
#[verifier::spinoff_prover]
proof fn lemma_smpl_word(note: int, loop_start: int, loop_end: int, index: int)
    requires
        0 <= note < 0x1_0000_0000,
        0 <= loop_start < 0x1_0000_0000,
        0 < loop_end < 0x1_0000_0000,
        0 <= index < 16,
    ensures
        smpl_bytes(note, loop_start, loop_end).len() == 68,
        le_u32(smpl_bytes(note, loop_start, loop_end), 4 + 4 * index) == smpl_words(
            note,
            loop_start,
            loop_end - 1,
        )[index],
{
    let words = smpl_words(note, loop_start, loop_end - 1);
    let body = words_bytes(words, 16);
    let bytes = smpl_bytes(note, loop_start, loop_end);
    assert(low_u32(loop_start) == loop_start && low_u32(loop_end) == loop_end);
    assert(bytes == smpl_id() + body);
    lemma_words_bytes_len(words, 16);
    assert(0 <= words[index] < 0x1_0000_0000);
    lemma_words_bytes(words, 16, index);
    assert(bytes[4 + 4 * index] == body[4 * index]);
    assert(bytes[4 + 4 * index + 1] == body[4 * index + 1]);
    assert(bytes[4 + 4 * index + 2] == body[4 * index + 2]);
    assert(bytes[4 + 4 * index + 3] == body[4 * index + 3]);
}

} // verus!
