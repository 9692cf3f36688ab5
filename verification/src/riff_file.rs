//! The `smpl` chunk in a RIFF file: finding it, and adding one.
use crate::le_bytes::{law_u32_round_trip, le_bytes, le_u32, low_u32, push_u32, truncate_u32};
use crate::smpl::{
    law_smpl_round_trip, smpl_bytes, smpl_chunk, smpl_id, word, SmplChunk, SMPL_MIN_LEN,
};
use vstd::prelude::*;

verus! {

/// Why a file has no readable `smpl` chunk.
#[derive(Clone, Copy, Debug, PartialEq, Eq)]
pub enum RiffError {
    /// The file ends inside the header of a chunk.
    Header,
    /// The file ends inside the contents of the `smpl` chunk.
    Contents,
    /// The `smpl` chunk ends before its first loop does, or the loop ends behind
    /// the last frame that can be counted.
    Loop,
    /// The note of the `smpl` chunk is too low to be compared with another.
    Pitch,
}

/// The header of a chunk: its four letters, the length of its contents, and
/// where it starts in the file.
pub struct ChunkHeader {
    pub id: [u8; 4],
    pub len: u32,
    pub offset: u64,
}

/// Where the child number `index` of the file's first chunk starts: behind the
/// header and the type of that chunk, or behind the contents of the child
/// before, which are padded to an even length. A child whose header the file
/// does not hold has no successor.
pub open spec fn child_offset(file: Seq<u8>, index: nat) -> int
    decreases index,
{
    if index == 0 {
        12
    } else {
        let before = child_offset(file, (index - 1) as nat);
        if before + 8 <= file.len() {
            let len = le_u32(file, before + 4);
            before + 8 + len + len % 2
        } else {
            before
        }
    }
}

/// The child number `index` lies before the end of the file's first chunk, of
/// which the last four bytes do not count.
pub open spec fn has_child(file: Seq<u8>, index: nat) -> bool {
    &&& file.len() >= 8
    &&& child_offset(file, index) < 4 + le_u32(file, 4)
}

/// `riff::Chunk::read` at the start of the file, and the item number `index` of
/// `riff::Chunk::iter` on the chunk it returns. There is no item when the file
/// has no header or when the iterator has come to the end of the chunk; an item
/// is an error when the file ends before the child's header does. The iterator
/// goes on from a child by its length, and from an error not at all.
#[verifier::external_body]
fn riff_child(file: &[u8], index: usize) -> (child: Option<Option<ChunkHeader>>)
    ensures
        child is Some <==> has_child(file@, index as nat),
        child matches Some(header) ==> {
            let at = child_offset(file@, index as nat);
            &&& header is Some <==> at + 8 <= file@.len()
            &&& header matches Some(header) ==> {
                &&& header.offset == at
                &&& header.id@ == file@.subrange(at, at + 4)
                &&& header.len == le_u32(file@, at + 4)
            }
        },
{
    let mut stream = std::io::Cursor::new(file);
    let root = riff::Chunk::read(&mut stream, 0).ok()?;
    let child = root.iter(&mut stream).nth(index)?;
    Some(
        child.ok().map(
            |chunk|
                ChunkHeader { id: chunk.id().value, len: chunk.len(), offset: chunk.offset() },
        ),
    )
}

/// `riff::Chunk::read` at `offset`, and `riff::Chunk::read_contents` on the
/// chunk it returns: the contents, or an error when the file ends before they
/// do.
#[verifier::external_body]
fn riff_contents(file: &[u8], offset: u64) -> (contents: Option<Vec<u8>>)
    requires
        offset + 8 <= file@.len(),
    ensures
        contents is Some <==> offset + 8 + le_u32(file@, offset + 4) <= file@.len(),
        contents matches Some(bytes) ==> bytes@ == file@.subrange(
            offset + 8,
            offset + 8 + le_u32(file@, offset + 4),
        ),
{
    let mut stream = std::io::Cursor::new(file);
    let chunk = riff::Chunk::read(&mut stream, offset).ok()?;
    chunk.read_contents(&mut stream).ok()
}

/// The file from where the child number `index` starts.
spec fn bytes_left(file: Seq<u8>, index: nat) -> nat {
    if child_offset(file, index) < file.len() {
        (file.len() - child_offset(file, index)) as nat
    } else {
        0
    }
}

/// Where the first `smpl` chunk from child number `index` on starts, if there
/// is one before a header that is cut off.
pub open spec fn smpl_offset(file: Seq<u8>, index: nat) -> Result<Option<int>, RiffError>
    decreases
            (if child_offset(file, index) < file.len() {
                file.len() - child_offset(file, index)
            } else {
                0
            }),
{
    let at = child_offset(file, index);
    if !has_child(file, index) {
        Ok(None)
    } else if at + 8 > file.len() {
        Err(RiffError::Header)
    } else if file.subrange(at, at + 4) == smpl_id() {
        Ok(Some(at))
    } else {
        smpl_offset(file, index + 1)
    }
}

/// The contents of the first `smpl` chunk of a file.
pub open spec fn smpl_contents_of(file: Seq<u8>) -> Result<Option<Seq<u8>>, RiffError> {
    match smpl_offset(file, 0) {
        Err(error) => Err(error),
        Ok(None) => Ok(None),
        Ok(Some(at)) => {
            let end = at + 8 + le_u32(file, at + 4);
            if end <= file.len() {
                Ok(Some(file.subrange(at + 8, end)))
            } else {
                Err(RiffError::Contents)
            }
        },
    }
}

/// Children lie one behind the other.
proof fn lemma_child_offset(file: Seq<u8>, index: nat)
    requires
        child_offset(file, index) + 8 <= file.len(),
    ensures
        child_offset(file, index + 1) >= child_offset(file, index) + 8,
        child_offset(file, index) >= 12 + 8 * index,
    decreases index,
{
    if index > 0 {
        let before = (index - 1) as nat;
        lemma_child_offset(file, before);
    }
}

/// Finds the first `smpl` chunk of a file, and reads its contents.
pub fn smpl_contents(file: &[u8]) -> (contents: Result<Option<Vec<u8>>, RiffError>)
    ensures
        match contents {
            Err(error) => smpl_contents_of(file@) == Err::<Option<Seq<u8>>, RiffError>(error),
            Ok(None) => smpl_contents_of(file@) == Ok::<Option<Seq<u8>>, RiffError>(None),
            Ok(Some(bytes)) => smpl_contents_of(file@) == Ok::<Option<Seq<u8>>, RiffError>(
                Some(bytes@),
            ),
        },
{
    let mut index: usize = 0;
    loop
        invariant
            smpl_offset(file@, 0) == smpl_offset(file@, index as nat),
            index == 0 || 12 + 8 * (index - 1) < file@.len(),
        decreases bytes_left(file@, index as nat),
    {
        match riff_child(file, index) {
            None => {
                return Ok(None);
            },
            Some(None) => {
                return Err(RiffError::Header);
            },
            Some(Some(header)) => {
                if is_smpl(&header.id) {
                    return match riff_contents(file, header.offset) {
                        Some(bytes) => Ok(Some(bytes)),
                        None => Err(RiffError::Contents),
                    };
                }
                proof {
                    lemma_child_offset(file@, index as nat);
                }
                index = index + 1;
            },
        }
    }
}

/// What the first `smpl` chunk of a file says, if the file has one.
pub open spec fn smpl_of(file: Seq<u8>) -> Result<Option<SmplChunk>, RiffError> {
    match smpl_contents_of(file) {
        Err(error) => Err(error),
        Ok(None) => Ok(None),
        Ok(Some(contents)) => if contents.len() < SMPL_MIN_LEN {
            Err(RiffError::Loop)
        } else {
            Ok(
                Some(
                    SmplChunk {
                        note: word(contents, 3) as u32,
                        fine_tune: word(contents, 4) as u32,
                        loop_start: word(contents, 11) as u32,
                        loop_end: word(contents, 12) as u32,
                    },
                ),
            )
        },
    }
}

/// Reads the first `smpl` chunk of a file.
pub fn read_smpl(file: &[u8]) -> (chunk: Result<Option<SmplChunk>, RiffError>)
    ensures
        chunk == smpl_of(file@),
{
    match smpl_contents(file) {
        Err(error) => Err(error),
        Ok(None) => Ok(None),
        Ok(Some(contents)) => match SmplChunk::parse(contents.as_slice()) {
            Some(chunk) => Ok(Some(chunk)),
            None => Err(RiffError::Loop),
        },
    }
}

/// Whether four letters are those of a `smpl` chunk.
fn is_smpl(id: &[u8; 4]) -> (same: bool)
    ensures
        same == (id@ == smpl_id()),
{
    let same = id[0] == 0x73 && id[1] == 0x6d && id[2] == 0x70 && id[3] == 0x6c;
    assert(same ==> id@ =~= smpl_id());
    same
}

/// A file with a `smpl` chunk behind everything else, and a header that counts
/// it.
pub open spec fn with_smpl(file: Seq<u8>, note: int, loop_start: int, loop_end: int) -> Seq<u8> {
    file.take(4) + le_bytes(low_u32(file.len() as int + 60)) + file.skip(8) + smpl_bytes(
        note,
        loop_start,
        loop_end,
    )
}

/// Adds a `smpl` chunk at the end of a file, for a recording of `note` that
/// repeats the frames from `loop_start` to before `loop_end`, and writes the
/// new length into the file's header.
pub fn append_smpl(file: &mut Vec<u8>, note: u32, loop_start: usize, loop_end: usize)
    requires
        old(file)@.len() >= 8,
        old(file)@.len() + 68 <= usize::MAX,
        low_u32(loop_end as int) > 0,
    ensures
        final(file)@ == with_smpl(old(file)@, note as int, loop_start as int, loop_end as int),
{
    let mut chunk = smpl_chunk(note, loop_start, loop_end);
    file.append(&mut chunk);
    let riff_size = truncate_u32(file.len() - 8);
    let mut bytes: Vec<u8> = Vec::new();
    push_u32(&mut bytes, riff_size);
    file[4] = bytes[0];
    file[5] = bytes[1];
    file[6] = bytes[2];
    file[7] = bytes[3];
    assert(file@ =~= with_smpl(old(file)@, note as int, loop_start as int, loop_end as int));
}

/// The chunks of the file fill it up to the last byte, `count` of them, and
/// none is a `smpl` chunk.
pub open spec fn complete_without_smpl(file: Seq<u8>, count: nat) -> bool {
    &&& file.len() >= 12
    &&& child_offset(file, count) == file.len()
    &&& forall|index: nat|
        index < count ==> {
            let at = #[trigger] child_offset(file, index);
            &&& at + 8 <= file.len()
            &&& file.subrange(at, at + 4) != smpl_id()
        }
}

/// A file keeps its chunks when a `smpl` chunk is added.
proof fn lemma_same_children(
    file: Seq<u8>,
    count: nat,
    note: int,
    loop_start: int,
    loop_end: int,
    index: nat,
)
    requires
        complete_without_smpl(file, count),
        index <= count,
    ensures
        child_offset(file, index) >= 12,
        child_offset(with_smpl(file, note, loop_start, loop_end), index) == child_offset(
            file,
            index,
        ),
    decreases index,
{
    if index > 0 {
        let before = (index - 1) as nat;
        lemma_same_children(file, count, note, loop_start, loop_end, before);
        let at = child_offset(file, before);
        let longer = with_smpl(file, note, loop_start, loop_end);
        assert(at + 8 <= file.len());
        assert(forall|k: int| 8 <= k < file.len() ==> longer[k] == file[k]);
    }
}

/// The search passes over the chunks that the file had before.
proof fn lemma_search_passes(
    file: Seq<u8>,
    count: nat,
    note: int,
    loop_start: int,
    loop_end: int,
    index: nat,
)
    requires
        complete_without_smpl(file, count),
        0 <= note < 0x1_0000_0000,
        low_u32(loop_end) > 0,
        file.len() + 60 < 0x1_0000_0000,
        index <= count,
    ensures
        smpl_offset(with_smpl(file, note, loop_start, loop_end), index)
            == Ok::<Option<int>, RiffError>(Some(file.len() as int)),
    decreases count - index,
{
    let longer = with_smpl(file, note, loop_start, loop_end);
    let chunk = smpl_bytes(note, loop_start, loop_end);
    let at = child_offset(file, index);
    lemma_same_children(file, count, note, loop_start, loop_end, index);
    law_smpl_round_trip(note, loop_start, loop_end);
    let size = file.len() as int + 60;
    law_u32_round_trip(size);
    assert(forall|k: int| 8 <= k < file.len() ==> longer[k] == file[k]);
    assert(forall|k: int| 0 <= k < 4 ==> longer[4 + k] == le_bytes(size)[k]);
    assert(longer[4] == le_bytes(size)[0]);
    assert(longer[5] == le_bytes(size)[1]);
    assert(longer[6] == le_bytes(size)[2]);
    assert(longer[7] == le_bytes(size)[3]);
    assert(le_u32(longer, 4) == size);
    if index == count {
        assert(longer.subrange(at, at + 4) =~= chunk.take(4));
    } else {
        lemma_search_passes(file, count, note, loop_start, loop_end, index + 1);
        assert(at + 8 <= file.len());
        assert(longer.subrange(at, at + 4) =~= file.subrange(at, at + 4));
    }
}

/// The `smpl` chunk that is added to a file is the one that is read from it: the
/// note, no fine tuning, and the loop, with its last frame for its end.
pub proof fn law_appended_smpl_is_read(
    file: Seq<u8>,
    count: nat,
    note: int,
    loop_start: int,
    loop_end: int,
)
    requires
        complete_without_smpl(file, count),
        0 <= note < 0x1_0000_0000,
        low_u32(loop_end) > 0,
        file.len() + 60 < 0x1_0000_0000,
    ensures
        smpl_contents_of(with_smpl(file, note, loop_start, loop_end)) == Ok::<
            Option<Seq<u8>>,
            RiffError,
        >(Some(smpl_bytes(note, loop_start, loop_end).skip(8))),
        smpl_of(with_smpl(file, note, loop_start, loop_end)) == Ok::<Option<SmplChunk>, RiffError>(
            Some(
                SmplChunk {
                    note: note as u32,
                    fine_tune: 0,
                    loop_start: low_u32(loop_start) as u32,
                    loop_end: (low_u32(loop_end) - 1) as u32,
                },
            ),
        ),
{
    let longer = with_smpl(file, note, loop_start, loop_end);
    let chunk = smpl_bytes(note, loop_start, loop_end);
    let at = file.len() as int;
    lemma_search_passes(file, count, note, loop_start, loop_end, 0);
    law_smpl_round_trip(note, loop_start, loop_end);
    assert(forall|k: int| 0 <= k < 68 ==> longer[at + k] == chunk[k]);
    assert(longer[at + 4] == chunk[4]);
    assert(longer[at + 5] == chunk[5]);
    assert(longer[at + 6] == chunk[6]);
    assert(longer[at + 7] == chunk[7]);
    assert(le_u32(longer, at + 4) == 60);
    assert(longer.subrange(at + 8, at + 68) =~= chunk.skip(8));
}

/// The four bytes from `at` on spell the name of a `smpl` chunk.
spec fn spells_smpl(file: Seq<u8>, at: int) -> bool {
    &&& file[at] == 0x73
    &&& file[at + 1] == 0x6d
    &&& file[at + 2] == 0x70
    &&& file[at + 3] == 0x6c
}

/// Two ways to say that a chunk is a `smpl` chunk.
proof fn lemma_spells_smpl(file: Seq<u8>, at: int)
    requires
        0 <= at,
        at + 4 <= file.len(),
    ensures
        spells_smpl(file, at) <==> file.subrange(at, at + 4) == smpl_id(),
{
    let id = file.subrange(at, at + 4);
    assert(id[0] == file[at] && id[1] == file[at + 1] && id[2] == file[at + 2] && id[3] == file[at
        + 3]);
    if spells_smpl(file, at) {
        assert(id =~= smpl_id());
    }
}

/// The child is there, with its whole header, and is no `smpl` chunk.
spec fn passed_over(file: Seq<u8>, index: nat) -> bool {
    let at = child_offset(file, index);
    &&& has_child(file, index)
    &&& at + 8 <= file.len()
    &&& !spells_smpl(file, at)
}

/// The search passes over children that are no `smpl` chunk.
proof fn lemma_search_from(file: Seq<u8>, from: nat, index: nat)
    requires
        from <= index,
        forall|k: nat| k < index ==> #[trigger] passed_over(file, k),
    ensures
        smpl_offset(file, from) == smpl_offset(file, index),
    decreases index - from,
{
    if from < index {
        let at = child_offset(file, from);
        assert(passed_over(file, from));
        lemma_child_offset(file, from);
        lemma_spells_smpl(file, at);
        lemma_search_from(file, from + 1, index);
    }
}

/// The search looks at the children of a file one after the other, whatever comes
/// before them: it finds the first `smpl` chunk, fails at a header that is cut off
/// before that, and finds nothing where there are no more children.
pub proof fn law_first_smpl_is_found(file: Seq<u8>, index: nat)
    requires
        forall|k: nat|
            k < index ==> {
                let at = #[trigger] child_offset(file, k);
                &&& has_child(file, k)
                &&& at + 8 <= file.len()
                &&& !(file[at] == 0x73 && file[at + 1] == 0x6d && file[at + 2] == 0x70 && file[at
                    + 3] == 0x6c)
            },
    ensures
        ({
            let at = child_offset(file, index);
            &&& !has_child(file, index) ==> smpl_contents_of(file) == Ok::<
                Option<Seq<u8>>,
                RiffError,
            >(None)
            &&& has_child(file, index) && at + 8 > file.len() ==> smpl_contents_of(file) == Err::<
                Option<Seq<u8>>,
                RiffError,
            >(RiffError::Header)
            &&& has_child(file, index) && at + 8 <= file.len() && file[at] == 0x73 && file[at + 1]
                == 0x6d && file[at + 2] == 0x70 && file[at + 3] == 0x6c ==> {
                let len = file[at + 4] + 256 * file[at + 5] + 65536 * file[at + 6] + 16777216
                    * file[at + 7];
                &&& at + 8 + len > file.len() ==> smpl_contents_of(file) == Err::<
                    Option<Seq<u8>>,
                    RiffError,
                >(RiffError::Contents)
                &&& at + 8 + len <= file.len() ==> {
                    &&& smpl_contents_of(file) matches Ok(Some(contents))
                    &&& contents.len() == len
                    &&& forall|k: int|
                        0 <= k < len ==> #[trigger] contents[k] == file[at + 8 + k]
                }
            }
        }),
{
    assert forall|k: nat| k < index implies #[trigger] passed_over(file, k) by {
        let at = child_offset(file, k);
        assert(has_child(file, k));
    }
    lemma_search_from(file, 0, index);
    let at = child_offset(file, index);
    if has_child(file, index) && at + 8 <= file.len() {
        lemma_child_offset(file, index);
        lemma_spells_smpl(file, at);
    }
}

/// Children start behind the first twelve bytes of a file, and each behind the
/// contents of the one before, padded to an even length; they end four bytes behind
/// what the file's header says.
pub proof fn law_children_follow(file: Seq<u8>, index: nat)
    requires
        child_offset(file, index) + 8 <= file.len(),
    ensures
        child_offset(file, 0) == 12,
        ({
            let at = child_offset(file, index);
            let len = file[at + 4] + 256 * file[at + 5] + 65536 * file[at + 6] + 16777216 * file[at
                + 7];
            let next = child_offset(file, index + 1);
            &&& next == at + 8 + len || next == at + 8 + len + 1
            &&& (next - at) % 2 == 0
        }),
        has_child(file, index) <==> child_offset(file, index) < 4 + file[4] + 256 * file[5] + 65536
            * file[6] + 16777216 * file[7],
{
    lemma_child_offset(file, index);
}

/// What a file says in its first `smpl` chunk: the fourth and the fifth word are the
/// note and the fine tuning, the twelfth and the thirteenth the loop. A chunk of
/// fewer words has no loop.
pub proof fn law_smpl_says(file: Seq<u8>, contents: Seq<u8>)
    requires
        smpl_contents_of(file) == Ok::<Option<Seq<u8>>, RiffError>(Some(contents)),
    ensures
        contents.len() < 52 ==> smpl_of(file) == Err::<Option<SmplChunk>, RiffError>(
            RiffError::Loop,
        ),
        contents.len() >= 52 ==> {
            &&& smpl_of(file) matches Ok(Some(chunk))
            &&& chunk.note == contents[12] + 256 * contents[13] + 65536 * contents[14] + 16777216
                * contents[15]
            &&& chunk.fine_tune == contents[16] + 256 * contents[17] + 65536 * contents[18]
                + 16777216 * contents[19]
            &&& chunk.loop_start == contents[44] + 256 * contents[45] + 65536 * contents[46]
                + 16777216 * contents[47]
            &&& chunk.loop_end == contents[48] + 256 * contents[49] + 65536 * contents[50]
                + 16777216 * contents[51]
        },
{
}

/// Without a `smpl` chunk that can be read there is nothing that it says.
pub proof fn law_no_smpl_says_nothing(file: Seq<u8>, error: RiffError)
    ensures
        smpl_contents_of(file) == Ok::<Option<Seq<u8>>, RiffError>(None) ==> smpl_of(file) == Ok::<
            Option<SmplChunk>,
            RiffError,
        >(None),
        smpl_contents_of(file) == Err::<Option<Seq<u8>>, RiffError>(error) ==> smpl_of(file)
            == Err::<Option<SmplChunk>, RiffError>(error),
{
}

/// A file that gets a `smpl` chunk keeps everything but the length in its header,
/// which counts the new chunk; the chunk stands at its end.
pub proof fn law_append_keeps_file(
    file: Seq<u8>,
    note: int,
    loop_start: int,
    loop_end: int,
)
    requires
        8 <= file.len(),
        file.len() + 60 < 0x1_0000_0000,
        0 <= note < 0x1_0000_0000,
        low_u32(loop_end) > 0,
    ensures
        ({
            let longer = with_smpl(file, note, loop_start, loop_end);
            &&& longer.len() == file.len() + 68
            &&& forall|k: int|
                (0 <= k < 4 || 8 <= k < file.len()) ==> #[trigger] longer[k] == file[k]
            &&& longer[4] + 256 * longer[5] + 65536 * longer[6] + 16777216 * longer[7]
                == longer.len() - 8
            &&& longer.skip(file.len() as int) == smpl_bytes(note, loop_start, loop_end)
        }),
{
    let longer = with_smpl(file, note, loop_start, loop_end);
    let size = file.len() as int + 60;
    law_u32_round_trip(size);
    law_smpl_round_trip(note, loop_start, loop_end);
    assert(longer[4] == le_bytes(size)[0]);
    assert(longer[5] == le_bytes(size)[1]);
    assert(longer[6] == le_bytes(size)[2]);
    assert(longer[7] == le_bytes(size)[3]);
    assert(le_u32(longer, 4) == le_u32(le_bytes(size), 0));
    assert(longer.skip(file.len() as int) =~= smpl_bytes(note, loop_start, loop_end));
}

} // verus!
