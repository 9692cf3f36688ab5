//! The banks of registers: eight letters with eight numbers each.
use crate::stops::{no_stops, StopStatus};
use crate::{LETTER_COUNT, NUMBER_COUNT};
use vstd::prelude::*;

verus! {

/// What is kept from one day to the next: the banks of registers, and the
/// devices of the manuals in order.
#[derive(Debug)]
pub struct Settings {
    pub all_stops: Vec<StopStatus>,
    pub hw_order: Option<Vec<Vec<u8>>>,
}

impl Settings {
    /// The registers of each bank.
    pub open spec fn banks(self) -> Seq<Seq<Seq<bool>>> {
        self.all_stops@.map_values(|stops: StopStatus| stops@)
    }
}

impl Default for Settings {
    fn default() -> (settings: Settings)
        ensures
            settings.banks() == Seq::new(
                (LETTER_COUNT * NUMBER_COUNT) as nat,
                |bank: int| no_stops(),
            ),
            settings.hw_order is None,
    {
        let count: usize = LETTER_COUNT as usize * NUMBER_COUNT as usize;
        let mut all_stops: Vec<StopStatus> = Vec::new();
        while all_stops.len() < count
            invariant
                all_stops@.len() <= count,
                forall|bank: int|
                    0 <= bank < all_stops@.len() ==> (#[trigger] all_stops@[bank])@ == no_stops(),
            decreases count - all_stops@.len(),
        {
            all_stops.push(StopStatus::default());
        }
        let settings = Settings { all_stops, hw_order: None };
        assert(settings.banks() =~= Seq::new(
            (LETTER_COUNT * NUMBER_COUNT) as nat,
            |bank: int| no_stops(),
        ));
        settings
    }
}

/// The place of a bank among all banks.
pub open spec fn bank_index(letter: u8, number: u8) -> int {
    8 * letter + number
}

/// The place of a bank among all banks.
pub fn bank_place(letter: u8, number: u8) -> (place: usize)
    ensures
        place == bank_index(letter, number),
        place <= 2295,
{
    8 * letter as usize + number as usize
}

/// Division that rounds towards zero, and what it leaves.
pub open spec fn truncated_quotient(value: int, divisor: int) -> int {
    if value >= 0 {
        value / divisor
    } else {
        -((-value) / divisor)
    }
}

pub open spec fn truncated_remainder(value: int, divisor: int) -> int {
    value - divisor * truncated_quotient(value, divisor)
}

/// The bank that is `offset` banks on, as its letter and its number. From the
/// last bank it goes on to the first.
pub open spec fn advanced_bank(letter: u8, number: u8, offset: i8) -> (u8, u8) {
    let value = 64 + bank_index(letter, number) + offset;
    (
        (truncated_remainder(truncated_quotient(value, 8), 8) % 256) as u8,
        (truncated_remainder(value, 8) % 256) as u8,
    )
}

/// A small number as a byte; one below zero counts from 256 down.
fn low_byte(value: i16) -> (byte: u8)
    requires
        -256 < value < 256,
    ensures
        byte == value as int % 256,
{
    if value < 0 {
        (value + 256) as u8
    } else {
        value as u8
    }
}

/// The bank that is `offset` banks on.
pub fn advance(letter: u8, number: u8, offset: i8) -> (bank: (u8, u8))
    ensures
        bank == advanced_bank(letter, number, offset),
{
    let place: i16 = bank_place(letter, number) as i16;
    let value: i16 = 64 + place + offset as i16;
    let new_letter: i16 = (value / 8) % 8;
    let new_number: i16 = value % 8;
    (low_byte(new_letter), low_byte(new_number))
}

/// Going on by some banks goes round all of them. (A step of more than 64 banks
/// back from the first one is not a bank.)
pub proof fn law_banks_go_round(letter: u8, number: u8, offset: i8)
    requires
        bank_index(letter, number) + offset >= -64,
    ensures
        advanced_bank(letter, number, offset).0 < LETTER_COUNT,
        advanced_bank(letter, number, offset).1 < NUMBER_COUNT,
        ({
            let bank = advanced_bank(letter, number, offset);
            &&& bank_index(bank.0, bank.1) == (bank_index(letter, number) + offset) % 64
            &&& 8 * bank.0 + bank.1 == (8 * letter + number + offset) % 64
        }),
{
}

/// A step of more than 64 banks back from the first one counts down from zero: the
/// letter and the number are as far below 256 as they are below zero.
pub proof fn law_banks_before_the_first(letter: u8, number: u8, offset: i8)
    requires
        8 * letter + number + offset < -64,
    ensures
        ({
            let bank = advanced_bank(letter, number, offset);
            let below = -64 - (8 * letter + number + offset);
            &&& (bank.0 + below / 8 % 8) % 256 == 0
            &&& (bank.1 + below % 8) % 256 == 0
        }),
{
    let below = -64 - (8 * letter + number + offset);
    let value = 64 + bank_index(letter, number) + offset;
    assert(value == -below);
    assert(truncated_quotient(value, 8) == -(below / 8));
    assert(truncated_remainder(value, 8) == -(below % 8));
    assert(truncated_remainder(-(below / 8), 8) == -(below / 8 % 8));
}

/// Every bank has a place of its own, and the banks of a letter stand together.
pub proof fn law_banks_have_places(letter: u8, number: u8)
    requires
        letter < LETTER_COUNT,
        number < NUMBER_COUNT,
    ensures
        0 <= bank_index(letter, number) < 64,
        bank_index(letter, number) / 8 == letter,
        bank_index(letter, number) % 8 == number,
{
}

/// A bank that is some banks on, and as many back, is the bank itself.
proof fn lemma_there_and_back(
    letter: u8,
    number: u8,
    offset: int,
    there: (u8, u8),
    back: (u8, u8),
)
    requires
        letter < LETTER_COUNT,
        number < NUMBER_COUNT,
        back.0 < LETTER_COUNT,
        back.1 < NUMBER_COUNT,
        bank_index(there.0, there.1) == (bank_index(letter, number) + offset) % 64,
        bank_index(back.0, back.1) == (bank_index(there.0, there.1) - offset) % 64,
    ensures
        back == (letter, number),
{
}

/// Going some banks back undoes going as many on.
pub proof fn law_banks_go_back(letter: u8, number: u8, offset: i8, opposite: i8)
    requires
        letter < LETTER_COUNT,
        number < NUMBER_COUNT,
        opposite == -offset,
        bank_index(letter, number) + offset >= -64,
        (bank_index(letter, number) + offset) % 64 - offset >= -64,
    ensures
        ({
            let bank = advanced_bank(letter, number, offset);
            advanced_bank(bank.0, bank.1, opposite) == (letter, number)
        }),
{
    let there = advanced_bank(letter, number, offset);
    let back = advanced_bank(there.0, there.1, opposite);
    law_banks_go_round(letter, number, offset);
    law_banks_go_round(there.0, there.1, opposite);
    lemma_there_and_back(letter, number, offset as int, there, back);
}

} // verus!
