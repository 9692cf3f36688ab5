//! What the console remembers: the registers that are drawn, the banks of
//! registers, the panels and the keyboards.
use crate::banks::{
    advance, advanced_bank, bank_index, bank_place, law_banks_go_round, Settings,
};
use crate::hid::{
    law_report_shows_bank, law_report_shows_registers, led_report, panel_report,
};
use crate::player::{ScheduledTask, ScheduledTaskType};
use crate::ports::{name_texts, path_key, PortTable};
use crate::stops::{
    all_applied, change_stops, common_len, law_bank_tasks_reach_bank, law_no_changes,
    law_nothing_drawn, law_tasks_are_differences, law_toggle, no_stops, register_task, stop_changes,
    toggled, StopStatus,
};
use crate::{LETTER_COUNT, MANUAL_COUNT, NUMBER_COUNT};
use vstd::prelude::*;

verus! {

/// What happens at the console.
#[derive(Debug)]
pub enum Message {
    /// A panel (the device and the panel's number) is there.
    AddRegisterHid(u64, u8),
    /// The panel of this device, at this path, is gone.
    CloseHid(u64, String),
    /// A register is toggled on a manual.
    ToggleRegister(u8, u8),
    /// The panels are to show the state.
    UpdateLEDs,
    /// Go this many banks on, and store the registers there if so wished.
    AdvanceBank(i8, bool),
    /// Show all registers as pushed in. The player is not told and keeps those
    /// that it has drawn.
    ClearRegisters,
    /// Go to the bank of this letter and number.
    ChangeBank(u8, u8),
    /// Find out which keyboard is which.
    StartCalibration,
    /// Store the registers in the bank of this letter and number.
    SetBank(u8, u8),
    /// A keyboard is connected as this client; its device has this name.
    NewPwConnection(i32, Vec<u8>),
    /// The clients of the manuals, in order.
    ConnectManuals(Vec<i32>),
    /// Store the settings.
    SaveSettings,
}

/// What the console asks for beyond tasks, messages and reports.
#[derive(Debug)]
pub enum Request {
    /// Calibrate the manuals, with these clients.
    Calibrate(Vec<i32>),
    /// Listen to these clients, in the order of the manuals.
    Connect(Vec<i32>),
    /// Store the settings.
    Save,
    /// The device at this path may be opened again.
    Forget(String),
}

/// What follows from a message: tasks for the player, messages for the console
/// itself, reports for the panels, and one request at most.
pub struct Reaction {
    pub tasks: Vec<ScheduledTask>,
    pub messages: Vec<Message>,
    pub reports: Vec<(u64, [u8; 32])>,
    pub request: Option<Request>,
}

impl Reaction {
    fn new() -> (reaction: Reaction)
        ensures
            reaction.tasks@ == Seq::<ScheduledTask>::empty(),
            reaction.messages@ == Seq::<Message>::empty(),
            reaction.reports@ == Seq::<(u64, [u8; 32])>::empty(),
            reaction.request is None,
    {
        Reaction {
            tasks: Vec::new(),
            messages: Vec::new(),
            reports: Vec::new(),
            request: None,
        }
    }

    /// Nothing but messages follows.
    pub open spec fn only_messages(self, messages: Seq<Message>) -> bool {
        &&& self.tasks@ == Seq::<ScheduledTask>::empty()
        &&& self.messages@ == messages
        &&& self.reports@ == Seq::<(u64, [u8; 32])>::empty()
        &&& self.request is None
    }

    /// Tasks follow, and the panels are to show the state.
    pub open spec fn tasks_and_leds(self, tasks: Seq<ScheduledTask>) -> bool {
        &&& self.tasks@ == tasks
        &&& self.messages@ == seq![Message::UpdateLEDs]
        &&& self.reports@ == Seq::<(u64, [u8; 32])>::empty()
        &&& self.request is None
    }

    /// Nothing but a request follows.
    pub open spec fn only_request(self) -> bool {
        &&& self.tasks@ == Seq::<ScheduledTask>::empty()
        &&& self.messages@ == Seq::<Message>::empty()
        &&& self.reports@ == Seq::<(u64, [u8; 32])>::empty()
        &&& self.request is Some
    }
}

/// The console.
pub struct Console {
    pub current_stops: StopStatus,
    pub settings: Settings,
    /// The panels: the device and the number of each.
    pub panels: Vec<(u64, u8)>,
    pub current_letter: u8,
    pub current_number: u8,
    pub ports: PortTable,
}

impl Console {
    /// The message names registers, manuals and banks that there are.
    pub open spec fn accepts(self, message: Message) -> bool {
        match message {
            Message::ToggleRegister(register, manual) => register < self.current_stops@.len()
                && manual < 4,
            Message::UpdateLEDs => forall|i: int|
                0 <= i < self.panels@.len() && (#[trigger] self.panels@[i]).1 < 16 ==> 8
                    * self.panels@[i].1 + 8 <= self.current_stops@.len(),
            Message::ChangeBank(letter, number) => bank_index(letter, number)
                < self.settings.banks().len(),
            Message::SetBank(letter, number) => bank_index(letter, number)
                < self.settings.banks().len(),
            _ => true,
        }
    }

    /// Whether the console can handle the message.
    pub fn is_accepted(&self, message: &Message) -> (accepted: bool)
        ensures
            accepted == self.accepts(*message),
    {
        match message {
            Message::ToggleRegister(register, manual) => (*register as usize)
                < self.current_stops.0.len() && *manual < 4,
            Message::UpdateLEDs => {
                let mut i: usize = 0;
                while i < self.panels.len()
                    invariant
                        i <= self.panels@.len(),
                        forall|k: int|
                            0 <= k < i && (#[trigger] self.panels@[k]).1 < 16 ==> 8
                                * self.panels@[k].1 + 8 <= self.current_stops@.len(),
                        *message == Message::UpdateLEDs,
                    decreases self.panels@.len() - i,
                {
                    let id = self.panels[i].1;
                    if id < 16 && 8 * id as usize + 8 > self.current_stops.0.len() {
                        return false;
                    }
                    i = i + 1;
                }
                true
            },
            Message::ChangeBank(letter, number) => bank_place(*letter, *number)
                < self.settings.all_stops.len(),
            Message::SetBank(letter, number) => bank_place(*letter, *number)
                < self.settings.all_stops.len(),
            _ => true,
        }
    }

    /// A console on its first bank, with no register drawn and nothing
    /// connected.
    pub fn new(settings: Settings) -> (console: Console)
        ensures
            console.settings == settings,
            console.current_stops@ == no_stops(),
            console.panels@ == Seq::<(u64, u8)>::empty(),
            console.current_letter == 0,
            console.current_number == 0,
            console.ports.names() == Map::<i32, Seq<u8>>::empty(),
            forall|name: Seq<u8>| #[trigger] console.ports.client(name) is None,
    {
        Console {
            current_stops: StopStatus::default(),
            settings,
            panels: Vec::new(),
            current_letter: 0,
            current_number: 0,
            ports: PortTable::new(),
        }
    }

    /// Nothing but the registers differs.
    pub open spec fn same_but_stops(self, other: Console) -> bool {
        other == Console { current_stops: other.current_stops, ..self }
    }

    /// Toggles a register on a manual; returns the task that does it.
    pub fn toggle_register(&mut self, register: u8, manual: u8) -> (task: ScheduledTask)
        requires
            old(self).accepts(Message::ToggleRegister(register, manual)),
        ensures
            old(self).same_but_stops(*final(self)),
            final(self).current_stops@ == toggled(
                old(self).current_stops@,
                register as int,
                manual as int,
            ),
            task == register_task(
                register as int,
                manual as int,
                final(self).current_stops@[register as int][manual as int],
            ),
    {
        let status: bool = !self.current_stops.0[register as usize][manual as usize];
        self.current_stops.0[register as usize][manual as usize] = status;
        assert(self.current_stops@ =~~= toggled(
            old(self).current_stops@,
            register as int,
            manual as int,
        ));
        ScheduledTask {
            note: 0,
            register,
            task_type: ScheduledTaskType::Register(manual, status),
        }
    }

    /// Goes to a bank; returns the tasks that draw its registers and push the
    /// others in.
    pub fn change_bank(&mut self, letter: u8, number: u8) -> (tasks: Vec<ScheduledTask>)
        requires
            old(self).accepts(Message::ChangeBank(letter, number)),
        ensures
            *final(self) == (Console {
                current_stops: final(self).current_stops,
                current_letter: letter,
                current_number: number,
                ..*old(self)
            }),
            final(self).current_stops@ == old(self).settings.banks()[bank_index(letter, number)],
            tasks@ == stop_changes(
                old(self).current_stops@,
                final(self).current_stops@,
                common_len(old(self).current_stops@, final(self).current_stops@),
            ),
    {
        self.current_letter = letter;
        self.current_number = number;
        let index: usize = bank_place(letter, number);
        let stops = self.settings.all_stops[index].clone();
        let tasks = change_stops(&self.current_stops, &stops);
        self.current_stops = stops;
        tasks
    }

    /// Stores the registers in a bank.
    pub fn set_bank(&mut self, letter: u8, number: u8)
        requires
            old(self).accepts(Message::SetBank(letter, number)),
        ensures
            *final(self) == (Console { settings: final(self).settings, ..*old(self) }),
            final(self).settings.hw_order == old(self).settings.hw_order,
            final(self).settings.banks() == old(self).settings.banks().update(
                bank_index(letter, number),
                old(self).current_stops@,
            ),
    {
        let index: usize = bank_place(letter, number);
        self.settings.all_stops[index] = self.current_stops.clone();
        assert(self.settings.banks() =~= old(self).settings.banks().update(
            bank_index(letter, number),
            old(self).current_stops@,
        ));
    }

    /// Forgets the panels of a device.
    pub fn close_panel(&mut self, device: u64)
        ensures
            *final(self) == (Console { panels: final(self).panels, ..*old(self) }),
            final(self).panels@ == old(self).panels@.filter(|panel: (u64, u8)| panel.0 != device),
    {
        let ghost others = |panel: (u64, u8)| panel.0 != device;
        let mut kept: Vec<(u64, u8)> = Vec::new();
        let mut i: usize = 0;
        reveal(Seq::filter);
        assert(self.panels@.take(0) =~= Seq::<(u64, u8)>::empty());
        while i < self.panels.len()
            invariant
                i <= self.panels@.len(),
                *self == *old(self),
                others == (|panel: (u64, u8)| panel.0 != device),
                kept@ == self.panels@.take(i as int).filter(others),
            decreases self.panels@.len() - i,
        {
            reveal(Seq::filter);
            let panel = self.panels[i];
            assert(self.panels@.take(i + 1).drop_last() =~= self.panels@.take(i as int));
            if panel.0 != device {
                kept.push(panel);
            }
            i = i + 1;
        }
        assert(self.panels@.take(i as int) =~= self.panels@);
        self.panels = kept;
    }

    /// The clients of the manuals, in order, once all keyboards are connected
    /// and the order of their devices is known.
    pub open spec fn connected_order(self) -> Option<Seq<i32>> {
        match self.settings.hw_order {
            Some(hw_order) => {
                let order = self.ports.known(name_texts(hw_order@), hw_order@.len() as int);
                if self.ports.names().len() == MANUAL_COUNT + 2 && order.len() == MANUAL_COUNT + 2 {
                    Some(order)
                } else {
                    None
                }
            },
            None => None,
        }
    }

    /// Records a keyboard; returns the clients of the manuals, in order, if all
    /// of them are there now.
    pub fn connect(&mut self, client: i32, name: Vec<u8>) -> (order: Option<Vec<i32>>)
        ensures
            *final(self) == (Console { ports: final(self).ports, ..*old(self) }),
            final(self).ports.names() == old(self).ports.names().insert(client, name@),
            forall|other: Seq<u8>| #[trigger]
                final(self).ports.client(other) == if path_key(other) == path_key(name@) {
                    Some(client)
                } else {
                    old(self).ports.client(other)
                },
            match order {
                Some(order) => final(self).connected_order() == Some(order@),
                None => final(self).connected_order() is None,
            },
    {
        self.ports.insert(client, name);
        if self.ports.len() != MANUAL_COUNT + 2 {
            return None;
        }
        match &self.settings.hw_order {
            Some(hw_order) => {
                let order = self.ports.known_clients(hw_order);
                if order.len() == MANUAL_COUNT + 2 {
                    Some(order)
                } else {
                    None
                }
            },
            None => None,
        }
    }

    /// Every client of the list is connected.
    pub open spec fn all_connected(self, order: Seq<i32>) -> bool {
        forall|i: int|
            0 <= i < order.len() ==> self.ports.names().contains_key(#[trigger] order[i])
    }

    /// Whether a client is connected.
    pub fn is_connected(&self, client: i32) -> (connected: bool)
        ensures
            connected == self.ports.names().contains_key(client),
    {
        self.ports.name(client).is_some()
    }

    /// What the end of a calibration does to the console, and what follows from
    /// it.
    pub open spec fn calibrates(self, order: Vec<i32>, after: Console, reaction: Reaction) -> bool {
        &&& after == (Console { settings: after.settings, ..self })
        &&& after.settings.all_stops == self.settings.all_stops
        &&& after.settings.hw_order matches Some(names)
        &&& name_texts(names@) == Seq::new(
            order@.len(),
            |i: int| self.ports.names()[order@[i]],
        )
        &&& reaction.only_messages(seq![Message::ConnectManuals(order), Message::SaveSettings])
    }

    /// The calibration is over: keeps the devices of the manuals in order. They
    /// are to be connected, and the settings to be stored.
    pub fn calibrated(&mut self, order: Vec<i32>) -> (reaction: Reaction)
        requires
            old(self).all_connected(order@),
        ensures
            *final(self) == (Console { settings: final(self).settings, ..*old(self) }),
            final(self).settings.all_stops == old(self).settings.all_stops,
            final(self).settings.hw_order matches Some(names) && name_texts(names@) == Seq::new(
                order@.len(),
                |i: int| old(self).ports.names()[order@[i]],
            ),
            reaction.only_messages(
                seq![Message::ConnectManuals(order), Message::SaveSettings],
            ),
            old(self).calibrates(order, *final(self), reaction),
    {
        let mut names: Vec<Vec<u8>> = Vec::new();
        let mut i: usize = 0;
        while i < order.len()
            invariant
                i <= order@.len(),
                *self == *old(self),
                old(self).all_connected(order@),
                names@.len() == i,
                forall|k: int|
                    0 <= k < i ==> (#[trigger] names@[k])@ == self.ports.names()[order@[k]],
            decreases order@.len() - i,
        {
            assert(self.ports.names().contains_key(order@[i as int]));
            if let Some(name) = self.ports.name(order[i]) {
                names.push(name);
            }
            i = i + 1;
        }
        assert(name_texts(names@) =~= Seq::new(
            order@.len(),
            |i: int| old(self).ports.names()[order@[i]],
        ));
        self.settings.hw_order = Some(names);
        let mut reaction = Reaction::new();
        reaction.messages.push(Message::ConnectManuals(order));
        reaction.messages.push(Message::SaveSettings);
        assert(reaction.messages@ =~= seq![Message::ConnectManuals(order), Message::SaveSettings]);
        reaction
    }

    /// What a message does to the console, and what follows from it.
    pub open spec fn reacts(self, message: Message, after: Console, reaction: Reaction) -> bool {
        match message {
            Message::AddRegisterHid(device, id) => {
                &&& after == (Console { panels: after.panels, ..self })
                &&& after.panels@ == self.panels@.push((device, id))
                &&& reaction.only_messages(seq![Message::UpdateLEDs])
            },
            Message::CloseHid(device, path) => {
                &&& after == (Console { panels: after.panels, ..self })
                &&& after.panels@ == self.panels@.filter(|panel: (u64, u8)| panel.0 != device)
                &&& reaction.only_request()
                &&& reaction.request == Some(Request::Forget(path))
            },
            Message::ToggleRegister(register, manual) => {
                &&& self.same_but_stops(after)
                &&& after.current_stops@ == toggled(
                    self.current_stops@,
                    register as int,
                    manual as int,
                )
                &&& reaction.tasks_and_leds(
                    seq![
                        register_task(
                            register as int,
                            manual as int,
                            after.current_stops@[register as int][manual as int],
                        ),
                    ],
                )
            },
            Message::UpdateLEDs => {
                &&& after == self
                &&& reaction.tasks@ == Seq::<ScheduledTask>::empty()
                &&& reaction.messages@ == Seq::<Message>::empty()
                &&& reaction.request is None
                &&& reaction.reports@.len() == self.panels@.len()
                &&& forall|i: int|
                    0 <= i < self.panels@.len() ==> {
                        &&& (#[trigger] reaction.reports@[i]).0 == self.panels@[i].0
                        &&& reaction.reports@[i].1@ == led_report(
                            self.current_stops@,
                            self.current_letter,
                            self.current_number,
                            self.panels@[i].1,
                        )
                    }
            },
            Message::AdvanceBank(offset, set) => {
                let bank = advanced_bank(self.current_letter, self.current_number, offset);
                &&& after == self
                &&& reaction.only_messages(
                    seq![
                        if set {
                            Message::SetBank(bank.0, bank.1)
                        } else {
                            Message::ChangeBank(bank.0, bank.1)
                        },
                    ],
                )
            },
            Message::ClearRegisters => {
                &&& self.same_but_stops(after)
                &&& after.current_stops@ == no_stops()
                &&& reaction.only_messages(seq![Message::UpdateLEDs])
            },
            Message::ChangeBank(letter, number) => {
                &&& after == (Console {
                    current_stops: after.current_stops,
                    current_letter: letter,
                    current_number: number,
                    ..self
                })
                &&& after.current_stops@ == self.settings.banks()[bank_index(letter, number)]
                &&& reaction.tasks_and_leds(
                    stop_changes(
                        self.current_stops@,
                        after.current_stops@,
                        common_len(self.current_stops@, after.current_stops@),
                    ),
                )
            },
            Message::StartCalibration => {
                &&& after == self
                &&& reaction.only_request()
                &&& reaction.request matches Some(Request::Calibrate(clients))
                &&& clients@.no_duplicates()
                &&& clients@.to_set() == self.ports.names().dom()
            },
            Message::SetBank(letter, number) => {
                &&& after == (Console { settings: after.settings, ..self })
                &&& after.settings.hw_order == self.settings.hw_order
                &&& after.settings.banks() == self.settings.banks().update(
                    bank_index(letter, number),
                    self.current_stops@,
                )
                &&& reaction.only_messages(
                    seq![Message::SaveSettings, Message::ChangeBank(letter, number)],
                )
            },
            Message::NewPwConnection(client, name) => {
                &&& after == (Console { ports: after.ports, ..self })
                &&& after.ports.names() == self.ports.names().insert(client, name@)
                &&& forall|other: Seq<u8>| #[trigger]
                    after.ports.client(other) == if path_key(other) == path_key(name@) {
                        Some(client)
                    } else {
                        self.ports.client(other)
                    }
                &&& match after.connected_order() {
                    Some(order) => {
                        &&& reaction.only_messages(reaction.messages@)
                        &&& reaction.messages@.len() == 1
                        &&& reaction.messages@[0] matches Message::ConnectManuals(clients)
                        &&& clients@ == order
                    },
                    None => reaction.only_messages(Seq::empty()),
                }
            },
            Message::ConnectManuals(order) => {
                &&& after == self
                &&& reaction.only_request()
                &&& reaction.request == Some(Request::Connect(order))
            },
            Message::SaveSettings => {
                &&& after == self
                &&& reaction.only_request()
                &&& reaction.request == Some(Request::Save)
            },
        }
    }

    /// Carries out one message.
    pub fn handle(&mut self, message: Message) -> (reaction: Reaction)
        requires
            old(self).accepts(message),
        ensures
            old(self).reacts(message, *final(self), reaction),
    {
        let mut reaction = Reaction::new();
        match message {
            Message::AddRegisterHid(device, id) => {
                self.panels.push((device, id));
                reaction.messages.push(Message::UpdateLEDs);
                assert(reaction.messages@ =~= seq![Message::UpdateLEDs]);
            },
            Message::CloseHid(device, path) => {
                self.close_panel(device);
                reaction.request = Some(Request::Forget(path));
            },
            Message::ToggleRegister(register, manual) => {
                let task = self.toggle_register(register, manual);
                reaction.tasks.push(task);
                assert(reaction.tasks@ =~= seq![task]);
                reaction.messages.push(Message::UpdateLEDs);
                assert(reaction.messages@ =~= seq![Message::UpdateLEDs]);
            },
            Message::UpdateLEDs => {
                let mut i: usize = 0;
                while i < self.panels.len()
                    invariant
                        i <= self.panels@.len(),
                        *self == *old(self),
                        self.accepts(Message::UpdateLEDs),
                        reaction.tasks@ == Seq::<ScheduledTask>::empty(),
                        reaction.messages@ == Seq::<Message>::empty(),
                        reaction.request is None,
                        reaction.reports@.len() == i,
                        forall|k: int|
                            0 <= k < i ==> {
                                &&& (#[trigger] reaction.reports@[k]).0 == self.panels@[k].0
                                &&& reaction.reports@[k].1@ == led_report(
                                    self.current_stops@,
                                    self.current_letter,
                                    self.current_number,
                                    self.panels@[k].1,
                                )
                            },
                    decreases self.panels@.len() - i,
                {
                    let (device, id) = self.panels[i];
                    let report = panel_report(
                        &self.current_stops,
                        self.current_letter,
                        self.current_number,
                        id,
                    );
                    reaction.reports.push((device, report));
                    i = i + 1;
                }
            },
            Message::AdvanceBank(offset, set) => {
                let (letter, number) = advance(self.current_letter, self.current_number, offset);
                if set {
                    reaction.messages.push(Message::SetBank(letter, number));
                    assert(reaction.messages@ =~= seq![Message::SetBank(letter, number)]);
                } else {
                    reaction.messages.push(Message::ChangeBank(letter, number));
                    assert(reaction.messages@ =~= seq![Message::ChangeBank(letter, number)]);
                }
            },
            Message::ClearRegisters => {
                self.current_stops = StopStatus::default();
                reaction.messages.push(Message::UpdateLEDs);
                assert(reaction.messages@ =~= seq![Message::UpdateLEDs]);
            },
            Message::ChangeBank(letter, number) => {
                reaction.tasks = self.change_bank(letter, number);
                reaction.messages.push(Message::UpdateLEDs);
                assert(reaction.messages@ =~= seq![Message::UpdateLEDs]);
            },
            Message::StartCalibration => {
                reaction.request = Some(Request::Calibrate(self.ports.clients()));
            },
            Message::SetBank(letter, number) => {
                self.set_bank(letter, number);
                reaction.messages.push(Message::SaveSettings);
                reaction.messages.push(Message::ChangeBank(letter, number));
                assert(reaction.messages@ =~= seq![
                    Message::SaveSettings,
                    Message::ChangeBank(letter, number),
                ]);
            },
            Message::NewPwConnection(client, name) => {
                if let Some(order) = self.connect(client, name) {
                    reaction.messages.push(Message::ConnectManuals(order));
                }
            },
            Message::ConnectManuals(order) => {
                reaction.request = Some(Request::Connect(order));
            },
            Message::SaveSettings => {
                reaction.request = Some(Request::Save);
            },
        }
        reaction
    }
}

/// A bank gives back what was stored in it: going to the bank right after
/// storing the registers there moves none of them.
pub proof fn law_bank_gives_back(
    before: Console,
    stored: Console,
    after: Console,
    letter: u8,
    number: u8,
    store: Reaction,
    change: Reaction,
)
    requires
        before.accepts(Message::SetBank(letter, number)),
        before.reacts(Message::SetBank(letter, number), stored, store),
        stored.reacts(Message::ChangeBank(letter, number), after, change),
    ensures
        stored.accepts(Message::ChangeBank(letter, number)),
        after.current_stops@ == before.current_stops@,
        change.tasks@ == Seq::<ScheduledTask>::empty(),
        after.current_letter == letter,
        after.current_number == number,
{
    law_no_changes(
        before.current_stops@,
        common_len(before.current_stops@, before.current_stops@),
    );
}

/// Whenever what the panels show changes, or there is a panel more, the panels
/// are told.
pub proof fn law_panels_show_changes(
    before: Console,
    message: Message,
    after: Console,
    reaction: Reaction,
)
    requires
        before.accepts(message),
        before.reacts(message, after, reaction),
        after.current_stops@ != before.current_stops@ || after.current_letter
            != before.current_letter || after.current_number != before.current_number
            || after.panels@.len() > before.panels@.len(),
    ensures
        reaction.messages@.contains(Message::UpdateLEDs),
{
    if message is CloseHid {
        before.panels@.lemma_filter_len(|panel: (u64, u8)| panel.0 != message->CloseHid_0);
    }
    assert(reaction.messages@[0] == Message::UpdateLEDs);
}

/// Whenever a bank changes, the settings are to be stored.
pub proof fn law_banks_are_saved(
    before: Console,
    message: Message,
    after: Console,
    reaction: Reaction,
)
    requires
        before.accepts(message),
        before.reacts(message, after, reaction),
        after.settings.banks() != before.settings.banks(),
    ensures
        reaction.messages@.contains(Message::SaveSettings),
{
    assert(reaction.messages@[0] == Message::SaveSettings);
}

/// From any bank, going on by some banks leads to a bank that there is. (A step
/// of more than 64 banks back from the first one does not.)
pub proof fn law_advance_finds_bank(
    before: Console,
    offset: i8,
    set: bool,
    after: Console,
    reaction: Reaction,
)
    requires
        before.reacts(Message::AdvanceBank(offset, set), after, reaction),
        before.settings.banks().len() == LETTER_COUNT * NUMBER_COUNT,
        8 * before.current_letter + before.current_number + offset >= -64,
    ensures
        reaction.messages@.len() == 1,
        after.accepts(reaction.messages@[0]),
        ({
            let place = (8 * before.current_letter + before.current_number + offset) % 64;
            match reaction.messages@[0] {
                Message::SetBank(letter, number) => set && letter < 8 && number < 8 && 8 * letter
                    + number == place,
                Message::ChangeBank(letter, number) => !set && letter < 8 && number < 8 && 8
                    * letter + number == place,
                _ => false,
            }
        }),
        after == before,
        reaction.tasks@.len() == 0,
        reaction.reports@.len() == 0,
        reaction.request is None,
{
    law_banks_go_round(before.current_letter, before.current_number, offset);
}

/// Storing the registers in one bank leaves every other bank as it was.
pub proof fn law_other_banks_stay(
    before: Console,
    stored: Console,
    letter: u8,
    number: u8,
    store: Reaction,
    other: int,
)
    requires
        before.accepts(Message::SetBank(letter, number)),
        before.reacts(Message::SetBank(letter, number), stored, store),
        0 <= other < before.settings.banks().len(),
        other != bank_index(letter, number),
    ensures
        stored.settings.banks()[other] == before.settings.banks()[other],
{
}

/// Every register has four manuals.
proof fn lemma_four_manuals(stops: StopStatus)
    ensures
        stops@.len() == stops.0@.len(),
        forall|r: int| 0 <= r < stops@.len() ==> (#[trigger] stops@[r]).len() == 4,
{
    assert forall|r: int| 0 <= r < stops@.len() implies (#[trigger] stops@[r]).len() == 4 by {
        assert(stops@[r] == stops.0@[r]@);
    }
}

/// Going to a bank, from any state and also from that bank itself, draws what is
/// stored in it: the registers are then those of the bank, its letter and number
/// are the current ones, and nothing else changes. The tasks, carried out on the
/// registers before, lead to these registers; each difference has its task, and no
/// task is without a difference.
pub proof fn law_change_bank(
    before: Console,
    letter: u8,
    number: u8,
    after: Console,
    reaction: Reaction,
)
    requires
        before.accepts(Message::ChangeBank(letter, number)),
        before.reacts(Message::ChangeBank(letter, number), after, reaction),
    ensures
        8 * letter + number < before.settings.all_stops@.len(),
        after.current_stops@ == before.settings.all_stops@[8 * letter + number]@,
        after.current_letter == letter,
        after.current_number == number,
        after.settings == before.settings,
        after.panels == before.panels,
        after.ports == before.ports,
        before.current_stops@.len() == after.current_stops@.len() && after.current_stops@.len()
            <= 256 ==> all_applied(before.current_stops@, reaction.tasks@) == after.current_stops@,
        before.current_stops@.len() <= 256 && after.current_stops@.len() <= 256 ==> forall|
            task: ScheduledTask,
        | #[trigger]
            reaction.tasks@.contains(task) <==> {
                &&& task.note == 0
                &&& task.register < before.current_stops@.len()
                &&& task.register < after.current_stops@.len()
                &&& task.task_type matches ScheduledTaskType::Register(manual, value)
                &&& manual < 4
                &&& before.current_stops@[task.register as int][manual as int] != value
                &&& after.current_stops@[task.register as int][manual as int] == value
            },
        reaction.messages@ == seq![Message::UpdateLEDs],
        reaction.reports@.len() == 0,
        reaction.request is None,
{
    let last = before.current_stops@;
    let current = after.current_stops@;
    lemma_four_manuals(before.current_stops);
    lemma_four_manuals(after.current_stops);
    if last.len() == current.len() && current.len() <= 256 {
        law_bank_tasks_reach_bank(last, current);
    }
    if last.len() <= 256 && current.len() <= 256 {
        assert forall|task: ScheduledTask| #[trigger]
            reaction.tasks@.contains(task) <==> {
                &&& task.note == 0
                &&& task.register < last.len()
                &&& task.register < current.len()
                &&& task.task_type matches ScheduledTaskType::Register(manual, value)
                &&& manual < 4
                &&& last[task.register as int][manual as int] != value
                &&& current[task.register as int][manual as int] == value
            } by {
            law_tasks_are_differences(last, current, common_len(last, current), task);
        }
    }
}

/// Toggling a register turns it round on one manual, tells the player so with one
/// task, and changes nothing else.
pub proof fn law_toggle_register(
    before: Console,
    register: u8,
    manual: u8,
    after: Console,
    reaction: Reaction,
)
    requires
        before.accepts(Message::ToggleRegister(register, manual)),
        before.reacts(Message::ToggleRegister(register, manual), after, reaction),
    ensures
        register < before.current_stops@.len(),
        manual < 4,
        after.current_stops@.len() == before.current_stops@.len(),
        after.current_stops@[register as int][manual as int]
            == !before.current_stops@[register as int][manual as int],
        forall|r: int, m: int|
            0 <= r < before.current_stops@.len() && 0 <= m < 4 && (r != register || m != manual)
                ==> #[trigger] after.current_stops@[r][m] == before.current_stops@[r][m],
        reaction.tasks@.len() == 1,
        reaction.tasks@[0].note == 0,
        reaction.tasks@[0].register == register,
        reaction.tasks@[0].task_type == ScheduledTaskType::Register(
            manual,
            !before.current_stops@[register as int][manual as int],
        ),
        reaction.messages@ == seq![Message::UpdateLEDs],
        reaction.reports@.len() == 0,
        reaction.request is None,
        after.settings == before.settings,
        after.panels == before.panels,
        after.ports == before.ports,
        after.current_letter == before.current_letter,
        after.current_number == before.current_number,
{
    lemma_four_manuals(before.current_stops);
    assert(before.current_stops@[register as int].len() == 4);
    law_toggle(before.current_stops@, register as int, manual as int);
    assert forall|r: int, m: int|
        0 <= r < before.current_stops@.len() && 0 <= m < 4 && (r != register || m
            != manual) implies #[trigger] after.current_stops@[r][m]
        == before.current_stops@[r][m] by {
        assert(before.current_stops@[r].len() == 4);
        if r != register {
            assert(after.current_stops@[r] == before.current_stops@[r]);
        }
    }
}

/// Storing the registers puts them into one bank, which is then gone to, leaves
/// the other banks and everything else alone, and has the settings saved.
pub proof fn law_set_bank(
    before: Console,
    letter: u8,
    number: u8,
    after: Console,
    reaction: Reaction,
)
    requires
        before.accepts(Message::SetBank(letter, number)),
        before.reacts(Message::SetBank(letter, number), after, reaction),
    ensures
        after.settings.all_stops@.len() == before.settings.all_stops@.len(),
        8 * letter + number < after.settings.all_stops@.len(),
        after.settings.all_stops@[8 * letter + number]@ == before.current_stops@,
        forall|bank: int|
            0 <= bank < before.settings.all_stops@.len() && bank != 8 * letter + number ==> (
            #[trigger] after.settings.all_stops@[bank])@ == before.settings.all_stops@[bank]@,
        after.settings.hw_order == before.settings.hw_order,
        after.current_stops == before.current_stops,
        after.current_letter == before.current_letter,
        after.current_number == before.current_number,
        after.panels == before.panels,
        after.ports == before.ports,
        reaction.messages@ == seq![Message::SaveSettings, Message::ChangeBank(letter, number)],
        reaction.tasks@.len() == 0,
        reaction.reports@.len() == 0,
        reaction.request is None,
{
    let place = 8 * letter + number;
    assert(after.settings.banks().len() == after.settings.all_stops@.len());
    assert(before.settings.banks().len() == before.settings.all_stops@.len());
    assert(after.settings.banks()[place] == after.settings.all_stops@[place]@);
    assert forall|bank: int|
        0 <= bank < before.settings.all_stops@.len() && bank != place implies (
    #[trigger] after.settings.all_stops@[bank])@ == before.settings.all_stops@[bank]@ by {
        assert(after.settings.banks()[bank] == after.settings.all_stops@[bank]@);
        assert(before.settings.banks()[bank] == before.settings.all_stops@[bank]@);
    }
}

/// Clearing the registers leaves none drawn at the console, has the panels show it,
/// and sends the player no task.
pub proof fn law_clear_registers(before: Console, after: Console, reaction: Reaction)
    requires
        before.reacts(Message::ClearRegisters, after, reaction),
    ensures
        after.current_stops@.len() == 128,
        forall|r: int, m: int|
            0 <= r < 128 && 0 <= m < 4 ==> !#[trigger] after.current_stops@[r][m],
        reaction.messages@ == seq![Message::UpdateLEDs],
        reaction.tasks@.len() == 0,
        reaction.reports@.len() == 0,
        reaction.request is None,
        after.settings == before.settings,
        after.panels == before.panels,
        after.ports == before.ports,
        after.current_letter == before.current_letter,
        after.current_number == before.current_number,
{
    law_nothing_drawn(0, 0);
    assert forall|r: int, m: int| 0 <= r < 128 && 0 <= m < 4 implies !#[trigger]
        after.current_stops@[r][m] by {
        law_nothing_drawn(r, m);
    }
}

/// Every panel gets a report of its own that shows the state: a panel of registers
/// each of its eight registers on each manual, any other panel the bank. Nothing
/// changes.
pub proof fn law_panels_get_reports(
    before: Console,
    after: Console,
    reaction: Reaction,
    panel: int,
    manual: int,
    column: int,
)
    requires
        before.accepts(Message::UpdateLEDs),
        before.reacts(Message::UpdateLEDs, after, reaction),
        0 <= panel < before.panels@.len(),
        0 <= manual < 4,
        0 <= column < 8,
    ensures
        after == before,
        reaction.reports@.len() == before.panels@.len(),
        reaction.reports@[panel].0 == before.panels@[panel].0,
        ({
            let id = before.panels@[panel].1;
            let report = reaction.reports@[panel].1@;
            let weight = seq![1int, 2, 4, 8, 16, 32, 64, 128][column];
            if id < 16 {
                &&& report[0] == id + 1
                &&& 8 * id + column < before.current_stops@.len()
                &&& (report[manual + 1] as int / weight % 2 == 1) == before.current_stops@[8 * id
                    + column][manual]
                &&& forall|i: int| 5 <= i < 32 ==> #[trigger] report[i] == 0
            } else {
                &&& report[0] == 1
                &&& report[1] == before.current_letter
                &&& report[2] == before.current_number
                &&& forall|i: int| 3 <= i < 32 ==> #[trigger] report[i] == 0
            }
        }),
        reaction.tasks@.len() == 0,
        reaction.messages@.len() == 0,
        reaction.request is None,
{
    let id = before.panels@[panel].1;
    assert(reaction.reports@[panel].1@ == led_report(
        before.current_stops@,
        before.current_letter,
        before.current_number,
        id,
    ));
    if id < 16 {
        law_report_shows_registers(
            before.current_stops@,
            before.current_letter,
            before.current_number,
            id,
            manual,
            column,
        );
    } else {
        law_report_shows_bank(
            before.current_stops@,
            before.current_letter,
            before.current_number,
            id,
        );
    }
}

/// A panel that comes is the last of the panels, and the panels are told. A panel
/// that goes is no longer among them, the others are, and its path is given free.
pub proof fn law_panels_come_and_go(
    before: Console,
    device: u64,
    id: u8,
    path: String,
    come: Console,
    hello: Reaction,
    gone: Console,
    farewell: Reaction,
    panel: (u64, u8),
)
    requires
        before.reacts(Message::AddRegisterHid(device, id), come, hello),
        before.reacts(Message::CloseHid(device, path), gone, farewell),
    ensures
        come.panels@.len() == before.panels@.len() + 1,
        come.panels@.last() == (device, id),
        forall|i: int|
            0 <= i < before.panels@.len() ==> #[trigger] come.panels@[i] == before.panels@[i],
        hello.messages@ == seq![Message::UpdateLEDs],
        hello.tasks@.len() == 0 && hello.reports@.len() == 0 && hello.request is None,
        gone.panels@.contains(panel) <==> before.panels@.contains(panel) && panel.0 != device,
        farewell.request == Some(Request::Forget(path)),
        farewell.tasks@.len() == 0 && farewell.messages@.len() == 0 && farewell.reports@.len() == 0,
        come.current_stops == before.current_stops && gone.current_stops == before.current_stops,
        come.settings == before.settings && gone.settings == before.settings,
        come.ports == before.ports && gone.ports == before.ports,
        come.current_letter == before.current_letter && gone.current_letter
            == before.current_letter,
        come.current_number == before.current_number && gone.current_number
            == before.current_number,
{
    let others = |panel: (u64, u8)| panel.0 != device;
    let kept = before.panels@.filter(others);
    assert(gone.panels@ == kept);
    if kept.contains(panel) {
        let i = choose|i: int| 0 <= i < kept.len() && kept[i] == panel;
        before.panels@.lemma_filter_pred(others, i);
        before.panels@.lemma_filter_contains_rev(others, panel);
    }
    if before.panels@.contains(panel) && panel.0 != device {
        let i = choose|i: int| 0 <= i < before.panels@.len() && before.panels@[i] == panel;
        before.panels@.lemma_filter_contains(others, i);
    }
}

/// A keyboard that is connected is known by its client and its device. Once there
/// are five, and five devices of the stored order were connected, these are to be
/// listened to, in the stored order; otherwise nothing follows.
pub proof fn law_keyboards_connect(
    before: Console,
    client: i32,
    name: Vec<u8>,
    after: Console,
    reaction: Reaction,
)
    requires
        before.reacts(Message::NewPwConnection(client, name), after, reaction),
    ensures
        after.ports.names().contains_key(client),
        after.ports.names()[client] == name@,
        forall|other: i32|
            other != client ==> (#[trigger] after.ports.names().contains_key(other)
                <==> before.ports.names().contains_key(other)),
        forall|other: i32|
            other != client && before.ports.names().contains_key(other)
                ==> #[trigger] after.ports.names()[other] == before.ports.names()[other],
        after.ports.client(name@) == Some(client),
        forall|other: Seq<u8>|
            path_key(other) == path_key(name@) ==> #[trigger] after.ports.client(other) == Some(
                client,
            ),
        forall|other: Seq<u8>|
            path_key(other) != path_key(name@) ==> #[trigger] after.ports.client(other)
                == before.ports.client(other),
        after.settings == before.settings,
        after.current_stops == before.current_stops,
        after.panels == before.panels,
        after.current_letter == before.current_letter,
        after.current_number == before.current_number,
        reaction.tasks@.len() == 0 && reaction.reports@.len() == 0 && reaction.request is None,
        before.settings.hw_order is None || after.ports.names().len() != 5
            ==> reaction.messages@.len() == 0,
        before.settings.hw_order matches Some(hw_order) ==> {
            let order = name_texts(hw_order@).filter(
                |name: Seq<u8>| after.ports.client(name) is Some,
            ).map_values(|name: Seq<u8>| after.ports.client(name)->0);
            &&& reaction.messages@.len() == 1 <==> after.ports.names().len() == 5 && order.len()
                == 5
            &&& reaction.messages@.len() <= 1
            &&& reaction.messages@.len() == 1 ==> (reaction.messages@[0] matches
                Message::ConnectManuals(clients) && clients@ == order)
        },
{
    if let Some(hw_order) = before.settings.hw_order {
        let texts = name_texts(hw_order@);
        after.ports.law_known_clients(texts, texts.len() as int);
        assert(texts.take(texts.len() as int) =~= texts);
    }
}

/// The clients to listen to, the settings to save and the keyboards to calibrate
/// are asked for as the message says, and nothing else follows.
pub proof fn law_requests(
    before: Console,
    order: Vec<i32>,
    listened: Console,
    listen: Reaction,
    saved: Console,
    save: Reaction,
    asked: Console,
    ask: Reaction,
)
    requires
        before.reacts(Message::ConnectManuals(order), listened, listen),
        before.reacts(Message::SaveSettings, saved, save),
        before.reacts(Message::StartCalibration, asked, ask),
    ensures
        listened == before && saved == before && asked == before,
        listen.request == Some(Request::Connect(order)),
        save.request == Some(Request::Save),
        ask.request matches Some(Request::Calibrate(clients)) && clients@.no_duplicates() && forall|
            client: i32,
        | #[trigger]
            clients@.contains(client) <==> before.ports.names().contains_key(client),
        listen.tasks@.len() == 0 && listen.messages@.len() == 0 && listen.reports@.len() == 0,
        save.tasks@.len() == 0 && save.messages@.len() == 0 && save.reports@.len() == 0,
        ask.tasks@.len() == 0 && ask.messages@.len() == 0 && ask.reports@.len() == 0,
{
    let clients = ask.request->0->Calibrate_0@;
    assert forall|client: i32| #[trigger]
        clients.contains(client) <==> before.ports.names().contains_key(client) by {
        assert(clients.to_set().contains(client) <==> clients.contains(client));
    }
}

/// The console can handle every message that names registers it has, one of four
/// manuals and one of its banks, and every message that names none.
pub proof fn law_accepted_messages(console: Console, message: Message)
    ensures
        match message {
            Message::ToggleRegister(register, manual) => console.accepts(message) <==> register
                < console.current_stops@.len() && manual < 4,
            Message::ChangeBank(letter, number) => console.accepts(message) <==> 8 * letter + number
                < console.settings.all_stops@.len(),
            Message::SetBank(letter, number) => console.accepts(message) <==> 8 * letter + number
                < console.settings.all_stops@.len(),
            Message::UpdateLEDs => console.current_stops@.len() >= 128 ==> console.accepts(message),
            _ => console.accepts(message),
        },
{
}

/// A calibration keeps the name of the device of each manual, in the order in which
/// their keys were struck. The manuals are connected in that order and the settings
/// saved; the banks stay.
pub proof fn law_calibration_keeps_order(
    before: Console,
    order: Vec<i32>,
    after: Console,
    reaction: Reaction,
    manual: int,
)
    requires
        before.all_connected(order@),
        before.calibrates(order, after, reaction),
        0 <= manual < order@.len(),
    ensures
        before.ports.names().contains_key(order@[manual]),
        after.settings.hw_order matches Some(names) && names@.len() == order@.len()
            && names@[manual]@ == before.ports.names()[order@[manual]],
        after.settings.all_stops == before.settings.all_stops,
        after.current_stops == before.current_stops,
        after.panels == before.panels,
        after.ports == before.ports,
        after.current_letter == before.current_letter,
        after.current_number == before.current_number,
        reaction.messages@.len() == 2,
        reaction.messages@[0] == Message::ConnectManuals(order),
        reaction.messages@[1] == Message::SaveSettings,
        reaction.tasks@.len() == 0,
        reaction.reports@.len() == 0,
        reaction.request is None,
{
    let names = after.settings.hw_order->0;
    assert(name_texts(names@).len() == names@.len());
    assert(name_texts(names@)[manual] == names@[manual]@);
}

/// Going on by some banks posts one message, for the bank that is so many banks on:
/// to store the registers there, or to go there. Nothing changes before that.
pub proof fn law_advance_posts_bank(
    before: Console,
    offset: i8,
    set: bool,
    after: Console,
    reaction: Reaction,
)
    requires
        before.reacts(Message::AdvanceBank(offset, set), after, reaction),
    ensures
        after == before,
        reaction.messages@.len() == 1,
        match reaction.messages@[0] {
            Message::SetBank(letter, number) => set && (letter, number) == advanced_bank(
                before.current_letter,
                before.current_number,
                offset,
            ),
            Message::ChangeBank(letter, number) => !set && (letter, number) == advanced_bank(
                before.current_letter,
                before.current_number,
                offset,
            ),
            _ => false,
        },
        reaction.tasks@.len() == 0,
        reaction.reports@.len() == 0,
        reaction.request is None,
{
}

} // verus!
