//! The MIDI side: which ports are keyboards, and which manual each one is.
use crate::player::{ScheduledTask, ScheduledTaskType};
use crate::{MANUAL_COUNT, NOTE_COUNT, NOTE_START};
use std::collections::HashMap;
use vstd::prelude::*;

verus! {

pub open spec fn is_digit(c: char) -> bool {
    '0' <= c <= '9'
}

/// There is at least one character, and all are digits.
pub open spec fn all_digits(s: Seq<char>) -> bool {
    &&& s.len() > 0
    &&& forall|i: int| 0 <= i < s.len() ==> is_digit(#[trigger] s[i])
}

/// The value of a row of digits.
pub open spec fn decimal(s: Seq<char>) -> int
    decreases s.len(),
{
    if s.len() == 0 {
        0
    } else {
        10 * decimal(s.drop_last()) + (s.last() as int - '0' as int)
    }
}

/// The value of a row of digits behind an optional sign.
pub open spec fn signed_decimal(s: Seq<char>) -> Option<int> {
    if s.len() > 0 && s[0] == '-' {
        if all_digits(s.skip(1)) {
            Some(-decimal(s.skip(1)))
        } else {
            None
        }
    } else {
        let digits = if s.len() > 0 && s[0] == '+' {
            s.skip(1)
        } else {
            s
        };
        if all_digits(digits) {
            Some(decimal(digits))
        } else {
            None
        }
    }
}

/// The number that a text stands for, if it is one and fits in 32 bits.
pub open spec fn parsed_i32(s: Seq<char>) -> Option<i32> {
    match signed_decimal(s) {
        Some(value) if i32::MIN <= value <= i32::MAX => Some(value as i32),
        _ => None,
    }
}

/// More digits never make a smaller number.
proof fn lemma_decimal_grows(s: Seq<char>, count: int)
    requires
        0 <= count <= s.len(),
        forall|i: int| 0 <= i < s.len() ==> is_digit(#[trigger] s[i]),
    ensures
        0 <= decimal(s.take(count)) <= decimal(s),
    decreases s.len(),
{
    if s.len() > 0 {
        let shorter = s.drop_last();
        if count < s.len() {
            lemma_decimal_grows(shorter, count);
            assert(shorter.take(count) =~= s.take(count));
        } else {
            lemma_decimal_grows(shorter, shorter.len() as int);
            assert(shorter.take(shorter.len() as int) =~= shorter);
            assert(s.take(count) =~= s);
        }
    } else {
        assert(s.take(count) =~= s);
    }
}

/// The value of the digits from `from` on, or `None` when they are no row of
/// digits or stand for more than 2147483648.
fn parse_digits(text: &str, from: usize, len: usize) -> (value: Option<i64>)
    requires
        from <= len,
        len == text@.len(),
    ensures
        match value {
            Some(value) => all_digits(text@.skip(from as int)) && value == decimal(
                text@.skip(from as int),
            ) && 0 <= value <= 0x8000_0000,
            None => all_digits(text@.skip(from as int)) ==> decimal(text@.skip(from as int))
                > 0x8000_0000,
        },
{
    let ghost digits = text@.skip(from as int);
    if from == len {
        return None;
    }
    let mut value: i64 = 0;
    let mut i: usize = from;
    assert(digits.take(0) =~= Seq::<char>::empty());
    while i < len
        invariant
            from <= i <= len,
            len == text@.len(),
            digits == text@.skip(from as int),
            forall|k: int| 0 <= k < i - from ==> is_digit(#[trigger] digits[k]),
            value == decimal(digits.take(i - from)),
            0 <= value <= 0x8000_0000,
        decreases len - i,
    {
        let c = text.get_char(i);
        assert(digits[i - from] == c);
        if c < '0' || c > '9' {
            return None;
        }
        let longer: i64 = 10 * value + (c as u32 - '0' as u32) as i64;
        proof {
            assert(digits.take(i + 1 - from).drop_last() =~= digits.take(i - from));
            assert(longer == decimal(digits.take(i + 1 - from)));
            if all_digits(digits) {
                lemma_decimal_grows(digits, i + 1 - from);
            }
        }
        if longer > 0x8000_0000 {
            return None;
        }
        value = longer;
        i = i + 1;
    }
    assert(digits.take(i - from) =~= digits);
    Some(value)
}

/// The number that the text from `from` on stands for: digits, with a sign
/// before them or not.
fn parse_i32(text: &str, from: usize, len: usize) -> (value: Option<i32>)
    requires
        from <= len,
        len == text@.len(),
    ensures
        value == parsed_i32(text@.skip(from as int)),
{
    let ghost rest = text@.skip(from as int);
    if from < len {
        assert(rest[0] == text@[from as int]);
        let sign = text.get_char(from);
        if sign == '-' || sign == '+' {
            assert(rest.skip(1) =~= text@.skip(from + 1));
            return match parse_digits(text, from + 1, len) {
                None => None,
                Some(value) => {
                    if sign == '-' {
                        Some((-value) as i32)
                    } else if value <= i32::MAX as i64 {
                        Some(value as i32)
                    } else {
                        None
                    }
                },
            };
        }
    }
    match parse_digits(text, from, len) {
        None => None,
        Some(value) => if value <= i32::MAX as i64 {
            Some(value as i32)
        } else {
            None
        },
    }
}

/// Where the character stands for the first time from `from` on.
pub open spec fn first_index(s: Seq<char>, c: char, from: int) -> Option<int>
    decreases s.len() - from,
{
    if from >= s.len() {
        None
    } else if s[from] == c {
        Some(from)
    } else {
        first_index(s, c, from + 1)
    }
}

/// The number behind the first underscore of a port's group, which is that of
/// its client.
pub open spec fn group_client(group: Seq<char>) -> Option<i32> {
    match first_index(group, '_', 0) {
        Some(i) => parsed_i32(group.skip(i + 1)),
        None => None,
    }
}

/// The number behind the first underscore of a port's group.
fn client_of_group(group: &str) -> (client: Option<i32>)
    ensures
        client == group_client(group@),
{
    let len = group.unicode_len();
    let mut i: usize = 0;
    while i < len
        invariant
            i <= len,
            len == group@.len(),
            first_index(group@, '_', 0) == first_index(group@, '_', i as int),
        decreases len - i,
    {
        if group.get_char(i) == '_' {
            return parse_i32(group, i + 1, len);
        }
        i = i + 1;
    }
    None
}

/// The client of a port with this format, direction and group.
pub open spec fn port_client(
    format: Seq<char>,
    direction: Seq<char>,
    group: Seq<char>,
) -> Option<i32> {
    if format == "8 bit raw midi"@ && direction == "out"@ {
        group_client(group)
    } else {
        None
    }
}

/// Only a port that sends MIDI has a client, the one that its group names.
pub proof fn law_midi_ports_have_clients(
    format: Seq<char>,
    direction: Seq<char>,
    group: Seq<char>,
)
    ensures
        direction != seq!['o', 'u', 't'] ==> port_client(format, direction, group) is None,
        format != seq![
            '8',
            ' ',
            'b',
            'i',
            't',
            ' ',
            'r',
            'a',
            'w',
            ' ',
            'm',
            'i',
            'd',
            'i',
        ] ==> port_client(format, direction, group) is None,
        direction == seq!['o', 'u', 't'] && format == seq![
            '8',
            ' ',
            'b',
            'i',
            't',
            ' ',
            'r',
            'a',
            'w',
            ' ',
            'm',
            'i',
            'd',
            'i',
        ] ==> port_client(format, direction, group) == group_client(group),
{
    reveal_strlit("8 bit raw midi");
    reveal_strlit("out");
    assert("out"@ =~= seq!['o', 'u', 't']);
    assert("8 bit raw midi"@ =~= seq![
        '8',
        ' ',
        'b',
        'i',
        't',
        ' ',
        'r',
        'a',
        'w',
        ' ',
        'm',
        'i',
        'd',
        'i',
    ]);
}

/// The client of a port that sends MIDI. `None` for any other port.
pub fn midi_client(format: Option<&str>, direction: Option<&str>, group: Option<&str>) -> (client:
    Option<i32>)
    ensures
        client == match (format, direction, group) {
            (Some(format), Some(direction), Some(group)) => if format@ == "8 bit raw midi"@
                && direction@ == "out"@ {
                group_client(group@)
            } else {
                None
            },
            _ => None,
        },
        match (format, direction, group) {
            (Some(format), Some(direction), Some(group)) => client == port_client(
                format@,
                direction@,
                group@,
            ),
            _ => client is None,
        },
{
    if let (Some(format), Some(direction), Some(group)) = (format, direction, group) {
        if format.to_owned() == "8 bit raw midi".to_owned() && direction.to_owned()
            == "out".to_owned() {
            return client_of_group(group);
        }
    }
    None
}

/// The manual of a client, when the first `count` clients of `order` play the
/// manuals from the lowest to the highest and those behind them the pedal. A
/// client that is listed twice plays the later one; one that is not listed
/// plays the pedal.
pub open spec fn manual_among(order: Seq<i32>, count: int, client: i32) -> int
    decreases count,
{
    if count <= 0 {
        MANUAL_COUNT as int
    } else if order[count - 1] == client {
        if count - 1 < MANUAL_COUNT {
            count - 1
        } else {
            MANUAL_COUNT as int
        }
    } else {
        manual_among(order, count - 1, client)
    }
}

/// The task for a key that is pressed or released on a manual.
pub open spec fn key_task(manual: int, note: u8, pressed: bool) -> ScheduledTask {
    ScheduledTask {
        note: (note - NOTE_START) as u8,
        register: 0,
        task_type: ScheduledTaskType::Note(manual as u8, pressed),
    }
}

/// The task for a key is about its manual, counts keys from the lowest one on, which
/// has the number 36, and says whether the key is held.
pub proof fn law_key_tasks(manual: int, note: u8, pressed: bool)
    requires
        0 <= manual < 4,
        note >= 36,
    ensures
        key_task(manual, note, pressed).note + 36 == note,
        key_task(manual, note, pressed).register == 0,
        key_task(manual, note, pressed).task_type matches ScheduledTaskType::Note(played, held)
            && played == manual && held == pressed,
        note < 97 ==> key_task(manual, note, pressed).valid(),
{
}

/// Which manual each client plays.
pub struct ManualChannels {
    client_to_channel: HashMap<i32, u8>,
}

impl ManualChannels {
    /// The manual of a client.
    pub closed spec fn manual(self, client: i32) -> int {
        if self.client_to_channel@.contains_key(client) {
            self.client_to_channel@[client] as int
        } else {
            MANUAL_COUNT as int
        }
    }

    /// Gives the clients their manuals in the order in which they are listed.
    pub fn new(order: &Vec<i32>) -> (channels: ManualChannels)
        ensures
            forall|client: i32| #[trigger]
                channels.manual(client) == manual_among(order@, order@.len() as int, client),
    {
        broadcast use vstd::std_specs::hash::group_hash_axioms;

        let mut channels = ManualChannels { client_to_channel: HashMap::new() };
        let mut i: usize = 0;
        while i < order.len()
            invariant
                i <= order@.len(),
                forall|client: i32| #[trigger]
                    channels.manual(client) == manual_among(order@, i as int, client),
            decreases order@.len() - i,
        {
            let channel: u8 = if i < MANUAL_COUNT {
                i as u8
            } else {
                MANUAL_COUNT as u8
            };
            let ghost before = channels;
            channels.client_to_channel.insert(order[i], channel);
            assert forall|client: i32| #[trigger]
                channels.manual(client) == manual_among(order@, i + 1, client) by {
                assert(before.manual(client) == manual_among(order@, i as int, client));
            }
            i = i + 1;
        }
        channels
    }

    /// The task for a key that a client reports as pressed or released. The
    /// lowest key of a manual is `NOTE_START`.
    pub fn note_task(&self, client: i32, note: u8, pressed: bool) -> (task: ScheduledTask)
        requires
            note >= NOTE_START,
        ensures
            task.note == note - NOTE_START,
            task.register == 0,
            task.task_type == ScheduledTaskType::Note(self.manual(client) as u8, pressed),
            task == key_task(self.manual(client), note, pressed),
    {
        broadcast use vstd::std_specs::hash::group_hash_axioms;

        let manual: u8 = match self.client_to_channel.get(&client) {
            Some(channel) => *channel,
            None => MANUAL_COUNT as u8,
        };
        ScheduledTask {
            note: note - NOTE_START as u8,
            register: 0,
            task_type: ScheduledTaskType::Note(manual, pressed),
        }
    }
}

/// The player can handle the task of every key that a manual has, whoever reports
/// it.
pub proof fn law_keys_are_valid(
    order: Seq<i32>,
    client: i32,
    note: u8,
    pressed: bool,
    task: ScheduledTask,
)
    requires
        NOTE_START <= note < NOTE_START + NOTE_COUNT,
        task.note == note - NOTE_START,
        task.task_type == ScheduledTaskType::Note(
            manual_among(order, order.len() as int, client) as u8,
            pressed,
        ),
    ensures
        task.valid(),
{
    law_manuals_exist(order, order.len() as int, client);
}

/// Every client has a manual that the organ has.
pub proof fn law_manuals_exist(order: Seq<i32>, count: int, client: i32)
    ensures
        0 <= manual_among(order, count, client) <= MANUAL_COUNT,
    decreases count,
{
    if count > 0 {
        law_manuals_exist(order, count - 1, client);
    }
}

/// What is found is the first of its kind, and where nothing is found there is none.
pub proof fn law_first_is_found(s: Seq<char>, c: char, from: int)
    requires
        0 <= from <= s.len(),
    ensures
        match first_index(s, c, from) {
            Some(i) => from <= i < s.len() && s[i] == c && forall|k: int|
                from <= k < i ==> #[trigger] s[k] != c,
            None => forall|k: int| from <= k < s.len() ==> #[trigger] s[k] != c,
        },
    decreases s.len() - from,
{
    if from < s.len() && s[from] != c {
        law_first_is_found(s, c, from + 1);
    }
}

/// A digit behind a number makes it ten times as large and adds itself.
pub proof fn law_digits_count_by_ten(digits: Seq<char>, digit: char)
    ensures
        decimal(Seq::<char>::empty()) == 0,
        decimal(digits.push(digit)) == 10 * decimal(digits) + (digit as int - '0' as int),
        is_digit(digit) <==> 48 <= digit as int <= 57,
{
    assert(digits.push(digit).drop_last() =~= digits);
}

/// The client of a port is the number behind the first underscore of its group, with
/// or without a sign, if it fits in 32 bits.
pub proof fn law_group_names_client(head: Seq<char>, digits: Seq<char>)
    requires
        forall|i: int| 0 <= i < head.len() ==> #[trigger] head[i] != '_',
        digits.len() > 0,
        forall|i: int| 0 <= i < digits.len() ==> '0' <= #[trigger] digits[i] <= '9',
    ensures
        group_client(head + seq!['_'] + digits) == if decimal(digits) <= 2147483647 {
            Some(decimal(digits) as i32)
        } else {
            None
        },
        group_client(head + seq!['_', '+'] + digits) == if decimal(digits) <= 2147483647 {
            Some(decimal(digits) as i32)
        } else {
            None
        },
        group_client(head + seq!['_', '-'] + digits) == if decimal(digits) <= 2147483648 {
            Some((-decimal(digits)) as i32)
        } else {
            None
        },
{
    let plain = head + seq!['_'] + digits;
    let plus = head + seq!['_', '+'] + digits;
    let minus = head + seq!['_', '-'] + digits;
    lemma_decimal_grows(digits, 0);
    lemma_first_underscore(head, digits);
    lemma_first_underscore(head, seq!['+'] + digits);
    lemma_first_underscore(head, seq!['-'] + digits);
    assert(plus =~= head + seq!['_'] + (seq!['+'] + digits));
    assert(minus =~= head + seq!['_'] + (seq!['-'] + digits));
    assert((seq!['+'] + digits).skip(1) =~= digits);
    assert((seq!['-'] + digits).skip(1) =~= digits);
    assert(digits[0] != '-' && digits[0] != '+');
    assert(digits.take(0) =~= Seq::<char>::empty());
}

/// A group without an underscore, or with anything but a number behind the first one,
/// names no client.
pub proof fn law_other_groups_name_none(head: Seq<char>, rest: Seq<char>, bad: int)
    requires
        forall|i: int| 0 <= i < head.len() ==> #[trigger] head[i] != '_',
        rest.len() == 0 || (rest.len() == 1 && (rest[0] == '-' || rest[0] == '+')) || (0 <= bad
            < rest.len() && (rest[bad] < '0' || rest[bad] > '9') && (bad > 0 || (rest[0] != '-'
            && rest[0] != '+'))),
    ensures
        group_client(head) is None,
        group_client(head + seq!['_'] + rest) is None,
{
    law_first_is_found(head, '_', 0);
    lemma_first_underscore(head, rest);
    if rest.len() > 1 && 0 < bad < rest.len() {
        assert(rest.skip(1)[bad - 1] == rest[bad]);
    }
}

/// The first underscore of a group stands behind what has none.
proof fn lemma_first_underscore(head: Seq<char>, rest: Seq<char>)
    requires
        forall|i: int| 0 <= i < head.len() ==> #[trigger] head[i] != '_',
    ensures
        first_index(head + seq!['_'] + rest, '_', 0) == Some(head.len() as int),
        (head + seq!['_'] + rest).skip(head.len() as int + 1) == rest,
{
    let group = head + seq!['_'] + rest;
    law_first_is_found(group, '_', 0);
    assert(group[head.len() as int] == '_');
    assert(forall|i: int| 0 <= i < head.len() ==> group[i] == head[i]);
    assert(group.skip(head.len() as int + 1) =~= rest);
}

/// A client plays the manual of its last place in the order, those from the fourth
/// place on the pedal; a client that has no place plays the pedal.
pub proof fn law_place_is_manual(order: Seq<i32>, count: int, client: i32, place: int)
    requires
        0 <= count <= order.len(),
    ensures
        (forall|i: int| 0 <= i < count ==> #[trigger] order[i] != client) ==> manual_among(
            order,
            count,
            client,
        ) == 3,
        0 <= place < count && order[place] == client && (forall|i: int|
            place < i < count ==> #[trigger] order[i] != client) ==> manual_among(
            order,
            count,
            client,
        ) == if place < 3 {
            place
        } else {
            3
        },
    decreases count,
{
    if count > 0 {
        law_place_is_manual(order, count - 1, client, place);
    }
}

} // verus!
