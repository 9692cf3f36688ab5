//! The reports that the register panels send and get.
use crate::console::Message;
use crate::stops::StopStatus;
use crate::{MANUAL_COUNT, NUMBER_COUNT};
use vstd::prelude::*;

verus! {

/// Whether a HID interface is that of a register panel.
pub fn is_panel(usage_page: u16, usage: u16) -> (panel: bool)
    ensures
        panel == (usage_page == 0xFF60 && usage == 0x61),
{
    usage_page == 0xFF60 && usage == 0x61
}

/// The report that asks a panel for its number.
pub fn hello_report() -> (report: [u8; 32])
    ensures
        forall|i: int| 0 <= i < 32 ==> report@[i] == 0xFF,
{
    [0xFFu8;32]
}

/// Whether a path is in the list.
pub fn is_known(paths: &Vec<String>, path: &String) -> (known: bool)
    ensures
        known == exists|i: int| 0 <= i < paths@.len() && #[trigger] paths@[i]@ == path@,
{
    let mut i: usize = 0;
    while i < paths.len()
        invariant
            i <= paths@.len(),
            forall|k: int| 0 <= k < i ==> #[trigger] paths@[k]@ != path@,
        decreases paths@.len() - i,
    {
        if paths[i] == *path {
            return true;
        }
        i = i + 1;
    }
    false
}

/// Takes every entry for a path off the list.
pub fn forget_path(paths: &mut Vec<String>, path: &String)
    ensures
        final(paths)@ == old(paths)@.filter(|other: String| other@ != path@),
{
    let ghost others = |other: String| other@ != path@;
    let mut kept: Vec<String> = Vec::new();
    let mut i: usize = 0;
    assert(paths@.take(0) =~= Seq::<String>::empty());
    reveal(Seq::filter);
    while i < paths.len()
        invariant
            i <= paths@.len(),
            paths@ == old(paths)@,
            others == (|other: String| other@ != path@),
            kept@ == paths@.take(i as int).filter(others),
        decreases paths@.len() - i,
    {
        reveal(Seq::filter);
        let other: &String = &paths[i];
        assert(paths@.take(i + 1).drop_last() =~= paths@.take(i as int));
        if *other != *path {
            kept.push(other.clone());
        }
        i = i + 1;
    }
    assert(paths@.take(i as int) =~= paths@);
    *paths = kept;
}

/// A byte, read as signed.
pub open spec fn signed_byte(value: u8) -> i8 {
    (if value < 128 {
        value as int
    } else {
        value - 256
    }) as i8
}

/// The message that a panel's report stands for. Its first byte says which.
pub open spec fn report_message(report: Seq<u8>) -> Option<Message> {
    match report[0] {
        1u8 => Some(Message::ToggleRegister(report[3], report[2])),
        2u8 => Some(Message::ClearRegisters),
        3u8 => Some(Message::AdvanceBank(signed_byte(report[2]), report[3] != 0)),
        4u8 => if report[3] == NUMBER_COUNT {
            Some(Message::ClearRegisters)
        } else {
            Some(Message::ChangeBank(report[2], report[3]))
        },
        5u8 => Some(Message::StartCalibration),
        6u8 => Some(Message::SetBank(report[2], report[3])),
        _ => None,
    }
}

/// Reads a panel's report.
pub fn decode_report(report: &[u8; 32]) -> (message: Option<Message>)
    ensures
        message == report_message(report@),
{
    match report[0] {
        1 => Some(Message::ToggleRegister(report[3], report[2])),
        2 => Some(Message::ClearRegisters),
        3 => {
            let count: i8 = if report[2] < 128 {
                report[2] as i8
            } else {
                (report[2] as i16 - 256) as i8
            };
            Some(Message::AdvanceBank(count, report[3] != 0))
        },
        4 => {
            if report[3] == NUMBER_COUNT {
                Some(Message::ClearRegisters)
            } else {
                Some(Message::ChangeBank(report[2], report[3]))
            }
        },
        5 => Some(Message::StartCalibration),
        6 => Some(Message::SetBank(report[2], report[3])),
        _ => None,
    }
}

/// The connection to one panel. The panel's number is in its first report.
pub struct PanelLink {
    pub device: u64,
    pub registered: Option<u8>,
}

impl PanelLink {
    /// A connection that has not had a report yet.
    pub fn new(device: u64) -> (link: PanelLink)
        ensures
            link.device == device,
            link.registered is None,
    {
        PanelLink { device, registered: None }
    }

    /// The messages that a report stands for, from a panel that was announced or
    /// not.
    pub open spec fn messages(self, report: Seq<u8>) -> Seq<Message> {
        (if self.registered is None {
            seq![Message::AddRegisterHid(self.device, report[1])]
        } else {
            Seq::empty()
        }) + (match report_message(report) {
            Some(message) => seq![message],
            None => Seq::empty(),
        })
    }

    /// A panel is announced once, by the number in its first report; what a report
    /// asks for comes last.
    pub proof fn law_panel_is_announced_once(self, report: Seq<u8>)
        ensures
            self.registered is None ==> {
                &&& self.messages(report).len() >= 1
                &&& self.messages(report)[0] == Message::AddRegisterHid(self.device, report[1])
                &&& self.messages(report).len() == 2 <==> report_message(report) is Some
                &&& self.messages(report).len() <= 2
            },
            self.registered is Some ==> {
                &&& self.messages(report).len() == 1 <==> report_message(report) is Some
                &&& self.messages(report).len() <= 1
            },
            report_message(report) matches Some(message) ==> self.messages(report).last()
                == message,
    {
    }

    /// The messages that a report stands for: the first report also announces
    /// the panel.
    pub fn receive(&mut self, report: &[u8; 32]) -> (messages: Vec<Message>)
        ensures
            final(self).device == old(self).device,
            final(self).registered == match old(self).registered {
                Some(id) => Some(id),
                None => Some(report@[1]),
            },
            messages@ == (if old(self).registered is None {
                seq![Message::AddRegisterHid(old(self).device, report@[1])]
            } else {
                Seq::empty()
            }) + (match report_message(report@) {
                Some(message) => seq![message],
                None => Seq::empty(),
            }),
            messages@ == old(self).messages(report@),
    {
        let mut messages: Vec<Message> = Vec::new();
        if self.registered.is_none() {
            self.registered = Some(report[1]);
            messages.push(Message::AddRegisterHid(self.device, report[1]));
        }
        if let Some(message) = decode_report(report) {
            messages.push(message);
        }
        messages
    }
}

/// The calibration of the manuals: the player strikes a key on each of them,
/// and one on each of the two keyboards of the pedal, and the order tells which
/// is which.
pub struct Calibration {
    pub order: Vec<i32>,
}

/// The report that asks for the next key after `done` of them, or that says
/// that there are enough.
pub open spec fn calibration_report(done: int) -> Seq<u8> {
    Seq::new(32, |i: int| 0u8).update(0, 0xFE).update(
        1,
        if done >= MANUAL_COUNT + 2 {
            0xFF
        } else if done < MANUAL_COUNT {
            done as u8
        } else {
            MANUAL_COUNT as u8
        },
    )
}

impl Calibration {
    /// A calibration that waits for its first key.
    pub fn new() -> (calibration: Calibration)
        ensures
            calibration.order@ == Seq::<i32>::empty(),
    {
        Calibration { order: Vec::new() }
    }

    /// Whether there are enough keys.
    pub fn is_done(&self) -> (done: bool)
        ensures
            done == (self.order@.len() >= MANUAL_COUNT + 2),
    {
        self.order.len() >= MANUAL_COUNT + 2
    }

    /// The report for the panels: the manual that is waited for, or the end.
    pub fn report(&self) -> (report: [u8; 32])
        ensures
            report@ == calibration_report(self.order@.len() as int),
    {
        let mut report: [u8; 32] = [0u8;32];
        report[0] = 0xFE;
        report[1] = if self.order.len() >= MANUAL_COUNT + 2 {
            0xFF
        } else if self.order.len() < MANUAL_COUNT {
            self.order.len() as u8
        } else {
            MANUAL_COUNT as u8
        };
        assert(report@ =~= calibration_report(self.order@.len() as int));
        report
    }

    /// A key was struck on the keyboard of a client.
    pub fn record(&mut self, client: i32)
        ensures
            final(self).order@ == old(self).order@.push(client),
    {
        self.order.push(client);
    }
}

/// The light of a register on a manual, as a number.
pub open spec fn light(stops: Seq<Seq<bool>>, register: int, manual: int) -> int {
    if stops[register][manual] {
        1
    } else {
        0
    }
}

/// The byte whose bits, the lowest first, are the lights of eight registers on
/// one manual.
pub open spec fn led_byte(stops: Seq<Seq<bool>>, first: int, manual: int) -> int {
    light(stops, first, manual) + 2 * light(stops, first + 1, manual) + 4 * light(
        stops,
        first + 2,
        manual,
    ) + 8 * light(stops, first + 3, manual) + 16 * light(stops, first + 4, manual) + 32 * light(
        stops,
        first + 5,
        manual,
    ) + 64 * light(stops, first + 6, manual) + 128 * light(stops, first + 7, manual)
}

/// The light of a register on a manual, as a number.
fn light_of(stops: &StopStatus, register: usize, manual: usize) -> (value: u8)
    requires
        register < stops@.len(),
        manual < 4,
    ensures
        value == light(stops@, register as int, manual as int),
        value <= 1,
{
    assert(stops@[register as int] == stops.0@[register as int]@);
    if stops.0[register][manual] {
        1
    } else {
        0
    }
}

/// The lights of eight registers on one manual.
fn led_byte_of(stops: &StopStatus, first: usize, manual: usize) -> (byte: u8)
    requires
        first + 8 <= stops@.len(),
        manual < 4,
    ensures
        byte == led_byte(stops@, first as int, manual as int),
{
    assert(stops@.len() == stops.0.len());
    light_of(stops, first, manual) + 2 * light_of(stops, first + 1, manual) + 4 * light_of(
        stops,
        first + 2,
        manual,
    ) + 8 * light_of(stops, first + 3, manual) + 16 * light_of(stops, first + 4, manual) + 32
        * light_of(stops, first + 5, manual) + 64 * light_of(stops, first + 6, manual) + 128
        * light_of(stops, first + 7, manual)
}

/// The report that shows a panel the state: its eight registers on each manual,
/// or, for any panel from number 16 on, the bank.
pub open spec fn led_report(stops: Seq<Seq<bool>>, letter: u8, number: u8, id: u8) -> Seq<u8> {
    Seq::new(
        32,
        |i: int|
            if id < 16 {
                if i == 0 {
                    (id + 1) as u8
                } else if i <= 4 {
                    led_byte(stops, 8 * id, i - 1) as u8
                } else {
                    0
                }
            } else {
                if i == 0 {
                    1
                } else if i == 1 {
                    letter
                } else if i == 2 {
                    number
                } else {
                    0
                }
            },
    )
}

/// The report that shows a panel the state.
pub fn panel_report(stops: &StopStatus, letter: u8, number: u8, id: u8) -> (report: [u8; 32])
    requires
        id < 16 ==> 8 * id + 8 <= stops@.len(),
    ensures
        report@ == led_report(stops@, letter, number, id),
{
    let mut report: [u8; 32] = [0u8;32];
    if id < 16 {
        let first: usize = 8 * id as usize;
        report[0] = id + 1;
        report[1] = led_byte_of(stops, first, 0);
        report[2] = led_byte_of(stops, first, 1);
        report[3] = led_byte_of(stops, first, 2);
        report[4] = led_byte_of(stops, first, 3);
    } else {
        report[0] = 1;
        report[1] = letter;
        report[2] = number;
    }
    assert(report@ =~= led_report(stops@, letter, number, id));
    report
}

/// Each light of a panel shows one register on one manual: the bit of the
/// register's column.
pub proof fn law_light_shows_register(stops: Seq<Seq<bool>>, first: int, manual: int, column: int)
    requires
        0 <= column < 8,
    ensures
        0 <= led_byte(stops, first, manual) < 256,
        led_byte(stops, first, manual) / seq![1int, 2, 4, 8, 16, 32, 64, 128][column] % 2 == light(
            stops,
            first + column,
            manual,
        ),
{
    let byte = led_byte(stops, first, manual);
    if column == 0 {
        assert(byte / 1 % 2 == light(stops, first, manual));
    } else if column == 1 {
        assert(byte / 2 % 2 == light(stops, first + 1, manual));
    } else if column == 2 {
        assert(byte / 4 % 2 == light(stops, first + 2, manual));
    } else if column == 3 {
        assert(byte / 8 % 2 == light(stops, first + 3, manual));
    } else if column == 4 {
        assert(byte / 16 % 2 == light(stops, first + 4, manual));
    } else if column == 5 {
        assert(byte / 32 % 2 == light(stops, first + 5, manual));
    } else if column == 6 {
        assert(byte / 64 % 2 == light(stops, first + 6, manual));
    } else {
        assert(byte / 128 % 2 == light(stops, first + 7, manual));
    }
}

/// The report that is sent to a panel shows each of its registers on each manual:
/// byte `manual + 1` has the bit of the register's column exactly when the
/// register is drawn on the manual. The first byte is one more than the panel's
/// number, and the bytes behind the manuals are zero.
pub proof fn law_report_shows_registers(
    stops: Seq<Seq<bool>>,
    letter: u8,
    number: u8,
    id: u8,
    manual: int,
    column: int,
)
    requires
        id < 16,
        0 <= manual < 4,
        0 <= column < 8,
    ensures
        ({
            let report = led_report(stops, letter, number, id);
            let weight = seq![1int, 2, 4, 8, 16, 32, 64, 128][column];
            &&& report.len() == 32
            &&& report[0] == id + 1
            &&& (report[manual + 1] as int / weight % 2 == 1) == stops[8 * id + column][manual]
            &&& forall|i: int| 5 <= i < 32 ==> #[trigger] report[i] == 0
        }),
{
    law_light_shows_register(stops, 8 * id as int, manual, column);
}

/// The report that is sent to a panel from number 16 on shows the bank and nothing
/// else.
pub proof fn law_report_shows_bank(stops: Seq<Seq<bool>>, letter: u8, number: u8, id: u8)
    requires
        id >= 16,
    ensures
        ({
            let report = led_report(stops, letter, number, id);
            &&& report.len() == 32
            &&& report[0] == 1
            &&& report[1] == letter
            &&& report[2] == number
            &&& forall|i: int| 3 <= i < 32 ==> #[trigger] report[i] == 0
        }),
{
}

/// Two states that differ in a register of a panel, on any manual, make different
/// reports for it.
pub proof fn law_reports_differ(
    stops: Seq<Seq<bool>>,
    others: Seq<Seq<bool>>,
    letter: u8,
    number: u8,
    id: u8,
    manual: int,
    column: int,
)
    requires
        id < 16,
        0 <= manual < 4,
        0 <= column < 8,
        stops[8 * id + column][manual] != others[8 * id + column][manual],
    ensures
        led_report(stops, letter, number, id) != led_report(others, letter, number, id),
{
    law_report_shows_registers(stops, letter, number, id, manual, column);
    law_report_shows_registers(others, letter, number, id, manual, column);
}

/// A byte and its reading as signed are the same but for the bytes in the upper
/// half, which lie below zero.
pub proof fn law_signed_byte_wraps(value: u8)
    ensures
        -128 <= signed_byte(value) < 128,
        (signed_byte(value) - value) % 256 == 0,
{
}

/// What the first byte of a panel's report asks for, with the numbers in the third
/// and the fourth byte: register and manual, banks to go on, letter and number.
pub proof fn law_reports_ask(report: Seq<u8>)
    requires
        report.len() == 32,
    ensures
        match report_message(report) {
            Some(Message::ToggleRegister(register, manual)) => report[0] == 1 && report[2] == manual
                && report[3] == register,
            Some(Message::ClearRegisters) => report[0] == 2 || (report[0] == 4 && report[3] == 8),
            Some(Message::AdvanceBank(offset, set)) => report[0] == 3 && (offset - report[2]) % 256
                == 0 && set == (report[3] > 0),
            Some(Message::ChangeBank(letter, number)) => report[0] == 4 && report[3] != 8
                && report[2] == letter && report[3] == number,
            Some(Message::StartCalibration) => report[0] == 5,
            Some(Message::SetBank(letter, number)) => report[0] == 6 && report[2] == letter
                && report[3] == number,
            None => report[0] == 0 || report[0] > 6,
            _ => false,
        },
{
    law_signed_byte_wraps(report[2]);
}

/// A calibration asks for the manuals one after the other, then twice for the
/// pedal, and then says that it is over.
pub proof fn law_calibration_asks_in_order(done: int)
    requires
        0 <= done,
    ensures
        calibration_report(done).len() == 32,
        calibration_report(done)[0] == 0xFE,
        done < 3 ==> calibration_report(done)[1] == done,
        done == 3 || done == 4 ==> calibration_report(done)[1] == 3,
        done >= 5 ==> calibration_report(done)[1] == 0xFF,
        forall|i: int| 2 <= i < 32 ==> #[trigger] calibration_report(done)[i] == 0,
{
}

} // verus!
