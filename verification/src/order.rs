//! The files of an organ: the list of its registers in order, and the recordings
//! of each register.
use crate::{NOTE_COUNT, NOTE_START};
use vstd::prelude::*;

verus! {

/// The characters of each line.
pub open spec fn line_texts(lines: Seq<String>) -> Seq<Seq<char>> {
    lines.map_values(|line: String| line@)
}

/// How many of the first `count` lines are not empty.
pub open spec fn places(lines: Seq<Seq<char>>, count: int) -> int
    decreases count,
{
    if count <= 0 {
        0
    } else {
        places(lines, count - 1) + if lines[count - 1].len() == 0 {
            0int
        } else {
            1
        }
    }
}

/// The registers that the first `count` lines name, each with its number. An
/// empty line does not count; a line with a dash leaves a number without a
/// register.
pub open spec fn ordered(lines: Seq<Seq<char>>, count: int) -> Seq<(int, Seq<char>)>
    decreases count,
{
    if count <= 0 {
        Seq::empty()
    } else {
        let line = lines[count - 1];
        let earlier = ordered(lines, count - 1);
        if line.len() == 0 || line == "-"@ {
            earlier
        } else {
            earlier.push((places(lines, count - 1), line))
        }
    }
}

/// The registers that the lines of the order file name, each with its number.
pub fn register_order(lines: &Vec<String>) -> (registers: Vec<(usize, String)>)
    ensures
        registers@.map_values(|entry: (usize, String)| (entry.0 as int, entry.1@)) == ordered(
            line_texts(lines@),
            lines@.len() as int,
        ),
{
    let ghost texts = line_texts(lines@);
    let dash = "-".to_owned();
    let mut registers: Vec<(usize, String)> = Vec::new();
    let mut place: usize = 0;
    let mut i: usize = 0;
    while i < lines.len()
        invariant
            i <= lines@.len(),
            texts == line_texts(lines@),
            dash@ == "-"@,
            place == places(texts, i as int),
            place <= i,
            registers@.map_values(|entry: (usize, String)| (entry.0 as int, entry.1@)) =~= ordered(
                texts,
                i as int,
            ),
        decreases lines@.len() - i,
    {
        let line: &String = &lines[i];
        assert(texts[i as int] == line@);
        if !line.as_str().is_empty() {
            if *line != dash {
                registers.push((place, line.clone()));
            }
            place = place + 1;
        }
        i = i + 1;
    }
    registers
}

/// How many registers are loaded, when `found` says of each whether it has a
/// directory: those before the first one without.
pub fn present_registers(found: &Vec<bool>) -> (count: usize)
    ensures
        count <= found@.len(),
        forall|i: int| 0 <= i < count ==> #[trigger] found@[i],
        count < found@.len() ==> !found@[count as int],
{
    let mut count: usize = 0;
    while count < found.len() && found[count]
        invariant
            count <= found@.len(),
            forall|i: int| 0 <= i < count ==> #[trigger] found@[i],
        decreases found@.len() - count,
    {
        count = count + 1;
    }
    count
}

/// The directory of a register.
pub fn rank_path(path: &str, register: &String) -> (rank: String)
    ensures
        rank@ == path@ + "/"@ + register@,
{
    let mut rank = path.to_owned();
    rank.append("/");
    rank.append(register.as_str());
    rank
}

/// The two digits of a number below a hundred.
pub open spec fn two_digits(value: int) -> Seq<char> {
    seq![('0' as int + value / 10) as char, ('0' as int + value % 10) as char]
}

/// One digit.
fn digit(value: usize) -> (text: &'static str)
    requires
        value < 10,
    ensures
        text@ == seq![('0' as int + value) as char],
{
    proof {
        reveal_strlit("0");
        reveal_strlit("1");
        reveal_strlit("2");
        reveal_strlit("3");
        reveal_strlit("4");
        reveal_strlit("5");
        reveal_strlit("6");
        reveal_strlit("7");
        reveal_strlit("8");
        reveal_strlit("9");
    }
    let text = match value {
        0 => "0",
        1 => "1",
        2 => "2",
        3 => "3",
        4 => "4",
        5 => "5",
        6 => "6",
        7 => "7",
        8 => "8",
        _ => "9",
    };
    assert(text@ =~= seq![('0' as int + value) as char]);
    text
}

/// The MIDI number of a key.
pub fn midi_note(note: usize) -> (number: u32)
    requires
        note < NOTE_COUNT,
    ensures
        number == note + NOTE_START,
{
    (note + NOTE_START) as u32
}

/// The path of a key's recording in the directory of a register.
pub open spec fn recording_path(rank: Seq<char>, note: int) -> Seq<char> {
    rank + "/"@ + two_digits(note + NOTE_START) + ".wav"@
}

/// The recording of a key stands in the directory of its register and is named after
/// the key's number plus 36, in two digits.
pub proof fn law_recordings_have_paths(rank: Seq<char>, note: int)
    requires
        0 <= note < 61,
    ensures
        ({
            let path = recording_path(rank, note);
            let name = path.skip(rank.len() as int);
            &&& path.take(rank.len() as int) == rank
            &&& name.len() == 7
            &&& name[0] == '/'
            &&& 10 * (name[1] as int - '0' as int) + (name[2] as int - '0' as int) == note + 36
            &&& '0' <= name[1] <= '9'
            &&& '0' <= name[2] <= '9'
            &&& name[3] == '.' && name[4] == 'w' && name[5] == 'a' && name[6] == 'v'
        }),
{
    reveal_strlit("/");
    reveal_strlit(".wav");
    law_two_digits(note + NOTE_START);
    assert(recording_path(rank, note).take(rank.len() as int) =~= rank);
}

/// The recording of a key in the directory of a register: it is named after the
/// MIDI number of the key.
pub fn sample_path(rank: &str, note: usize) -> (path: String)
    requires
        note < NOTE_COUNT,
    ensures
        path@ == rank@ + "/"@ + two_digits(note + NOTE_START) + ".wav"@,
        path@ == recording_path(rank@, note as int),
{
    let number: usize = note + NOTE_START;
    let mut path = rank.to_owned();
    path.append("/");
    path.append(digit(number / 10));
    path.append(digit(number % 10));
    path.append(".wav");
    assert(path@ =~= rank@ + "/"@ + two_digits(note + NOTE_START) + ".wav"@);
    path
}

/// Numbers grow from register to register.
pub proof fn law_order_grows(lines: Seq<Seq<char>>, count: int)
    ensures
        forall|i: int|
            0 <= i < ordered(lines, count).len() ==> 0 <= (#[trigger] ordered(lines, count)[i]).0
                < places(lines, count),
        forall|i: int, j: int|
            0 <= i < j < ordered(lines, count).len() ==> (#[trigger] ordered(lines, count)[i]).0 < (
            #[trigger] ordered(lines, count)[j]).0,
        0 <= places(lines, count),
    decreases count,
{
    if count > 0 {
        law_order_grows(lines, count - 1);
        let earlier = ordered(lines, count - 1);
        let all = ordered(lines, count);
        assert forall|i: int| 0 <= i < all.len() implies 0 <= (#[trigger] all[i]).0 < places(
            lines,
            count,
        ) by {
            if i < earlier.len() {
                assert(all[i] == earlier[i]);
            }
        }
        assert forall|i: int, j: int| 0 <= i < j < all.len() implies (#[trigger] all[i]).0 < (
        #[trigger] all[j]).0 by {
            assert(all[i] == earlier[i]);
            if j < earlier.len() {
                assert(all[j] == earlier[j]);
            }
        }
    }
}

/// One line more counts or not.
proof fn lemma_filter_next(lines: Seq<Seq<char>>, count: int, pred: spec_fn(Seq<char>) -> bool)
    requires
        0 <= count < lines.len(),
    ensures
        lines.take(count + 1).filter(pred) == if pred(lines[count]) {
            lines.take(count).filter(pred).push(lines[count])
        } else {
            lines.take(count).filter(pred)
        },
{
    reveal(Seq::filter);
    assert(lines.take(count + 1).drop_last() =~= lines.take(count));
    assert(lines.take(count + 1).last() == lines[count]);
}

/// The numbers count the lines that are not empty.
proof fn lemma_places(lines: Seq<Seq<char>>, count: int)
    requires
        0 <= count <= lines.len(),
    ensures
        places(lines, count) == lines.take(count).filter(
            |line: Seq<char>| line.len() > 0,
        ).len(),
    decreases count,
{
    let counted = |line: Seq<char>| line.len() > 0;
    if count == 0 {
        reveal(Seq::filter);
        assert(lines.take(0) =~= Seq::<Seq<char>>::empty());
    } else {
        lemma_places(lines, count - 1);
        lemma_filter_next(lines, count - 1, counted);
    }
}

/// The list holds exactly the lines that are neither empty nor a dash, in order,
/// and each of them has for its number how many of the lines before it are not
/// empty: every dash counts once, wherever it stands, and an empty line never.
pub proof fn law_lines_number_registers(lines: Seq<Seq<char>>, count: int)
    requires
        0 <= count <= lines.len(),
    ensures
        ordered(lines, count).len() == lines.take(count).filter(
            |line: Seq<char>| line.len() > 0 && line != seq!['-'],
        ).len(),
        forall|k: int|
            #![trigger lines[k]]
            0 <= k < count && lines[k].len() > 0 && lines[k] != seq!['-'] ==> {
                let place = lines.take(k).filter(
                    |line: Seq<char>| line.len() > 0 && line != seq!['-'],
                ).len();
                let number = lines.take(k).filter(|line: Seq<char>| line.len() > 0).len();
                &&& place < ordered(lines, count).len()
                &&& ordered(lines, count)[place as int] == (number as int, lines[k])
            },
    decreases count,
{
    let counted = |line: Seq<char>| line.len() > 0;
    let named = |line: Seq<char>| line.len() > 0 && line != seq!['-'];
    reveal_strlit("-");
    assert("-"@ =~= seq!['-']);
    if count == 0 {
        reveal(Seq::filter);
        assert(lines.take(0) =~= Seq::<Seq<char>>::empty());
    } else {
        let last = count - 1;
        law_lines_number_registers(lines, last);
        lemma_filter_next(lines, last, named);
        lemma_places(lines, last);
        let earlier = ordered(lines, last);
        let all = ordered(lines, count);
        assert forall|k: int|
            #![trigger lines[k]]
            0 <= k < count && lines[k].len() > 0 && lines[k] != seq!['-'] implies {
            let place = lines.take(k).filter(named).len();
            let number = lines.take(k).filter(counted).len();
            &&& place < all.len()
            &&& all[place as int] == (number as int, lines[k])
        } by {
            if k < last {
                let place = lines.take(k).filter(named).len();
                assert(place < earlier.len());
                assert(all[place as int] == earlier[place as int]);
            }
        }
    }
}

/// The two digits of a number below a hundred stand for it.
pub proof fn law_two_digits(value: int)
    requires
        0 <= value < 100,
    ensures
        two_digits(value).len() == 2,
        '0' <= two_digits(value)[0] <= '9',
        '0' <= two_digits(value)[1] <= '9',
        10 * (two_digits(value)[0] as int - '0' as int) + (two_digits(value)[1] as int - '0' as int)
            == value,
{
}

} // verus!
