//! Which pipes sound: the registers drawn and the keys held on each manual.
use crate::bit_set::BitSet;
use crate::sampler::SampleMessage;
use crate::{MANUAL_COUNT, NOTE_COUNT, REGISTER_COUNT};
use vstd::prelude::*;

verus! {

/// What a scheduled task does.
#[derive(Default, Clone, Copy, Debug, PartialEq, Eq)]
pub enum ScheduledTaskType {
    /// A key of this manual goes down (`true`) or up.
    Note(u8, bool),
    /// A register is drawn on this manual (`true`) or pushed in.
    Register(u8, bool),
    /// The pipe starts to sound.
    Sample,
    /// The pipe stops.
    FadeOut,
    /// Nothing happens.
    #[default]
    Nothing,
}

/// A task for the player, with the note and the register that it is about.
#[derive(Default, Clone, Copy, Debug, PartialEq, Eq)]
pub struct ScheduledTask {
    pub note: u8,
    pub register: u8,
    pub task_type: ScheduledTaskType,
}

/// What the player wants done after a task.
#[derive(Clone, Copy, Debug, PartialEq, Eq)]
pub enum PlayerAction {
    /// Put the task at the end of the player's own queue.
    Schedule(ScheduledTask),
    /// Hand the message to the sampler.
    Stream(SampleMessage),
}

impl ScheduledTask {
    /// The task names a manual, a key and a register that the organ has, as far
    /// as it uses them.
    pub open spec fn valid(self) -> bool {
        match self.task_type {
            ScheduledTaskType::Note(manual, _) => manual <= MANUAL_COUNT && self.note < NOTE_COUNT,
            ScheduledTaskType::Register(manual, _) => manual <= MANUAL_COUNT && self.register
                < REGISTER_COUNT,
            _ => true,
        }
    }

    /// Whether the player can handle the task.
    pub fn is_valid(&self) -> (valid: bool)
        ensures
            valid == self.valid(),
    {
        match self.task_type {
            ScheduledTaskType::Note(manual, _) => manual as usize <= MANUAL_COUNT
                && (self.note as usize) < NOTE_COUNT,
            ScheduledTaskType::Register(manual, _) => manual as usize <= MANUAL_COUNT
                && (self.register as usize) < REGISTER_COUNT,
            _ => true,
        }
    }
}

/// The tasks that follow when a pipe sounded `before` and sounds `after`: it is
/// told to stop, or to start, or there is nothing to tell.
pub open spec fn pipe_change(before: bool, after: bool, register: int, note: int) -> Seq<
    ScheduledTask,
> {
    if before && !after {
        seq![
            ScheduledTask {
                note: note as u8,
                register: register as u8,
                task_type: ScheduledTaskType::FadeOut,
            },
        ]
    } else if !before && after {
        seq![
            ScheduledTask {
                note: note as u8,
                register: register as u8,
                task_type: ScheduledTaskType::Sample,
            },
        ]
    } else {
        Seq::empty()
    }
}

/// The tasks for the first `count` registers, in order, when one key changes.
pub open spec fn note_changes(before: Player, after: Player, note: int, count: int) -> Seq<
    ScheduledTask,
>
    decreases count,
{
    if count <= 0 {
        Seq::empty()
    } else {
        let register = count - 1;
        note_changes(before, after, note, register) + pipe_change(
            before.sounds(register, note),
            after.sounds(register, note),
            register,
            note,
        )
    }
}

/// The tasks for the first `count` keys, in order, when one register changes.
pub open spec fn register_changes(before: Player, after: Player, register: int, count: int) -> Seq<
    ScheduledTask,
>
    decreases count,
{
    if count <= 0 {
        Seq::empty()
    } else {
        let note = count - 1;
        register_changes(before, after, register, note) + pipe_change(
            before.sounds(register, note),
            after.sounds(register, note),
            register,
            note,
        )
    }
}

/// The state of the keys and registers, and of the pipes between them.
pub struct Player {
    sinks: Vec<Vec<BitSet>>,
    notes: Vec<BitSet>,
    registers: Vec<BitSet>,
}

impl Player {
    /// The register is drawn on the manual.
    pub closed spec fn drawn(self, manual: int, register: int) -> bool {
        self.registers@[manual]@.contains(register)
    }

    /// The key is held on the manual.
    pub closed spec fn held(self, manual: int, note: int) -> bool {
        self.notes@[manual]@.contains(note)
    }

    /// The manual holds the pipe open.
    pub open spec fn opens(self, manual: int, register: int, note: int) -> bool {
        &&& 0 <= manual <= MANUAL_COUNT
        &&& self.drawn(manual, register)
        &&& self.held(manual, note)
    }

    /// The pipe sounds: some manual holds it open.
    pub open spec fn sounds(self, register: int, note: int) -> bool {
        exists|manual: int| self.opens(manual, register, note)
    }

    /// `after` differs from `self` in one key at most, which is now held
    /// (`value`) or not.
    pub open spec fn key_moved(self, after: Player, manual: int, note: int, value: bool) -> bool {
        &&& forall|m: int, r: int|
            0 <= m <= MANUAL_COUNT ==> #[trigger] after.drawn(m, r) == self.drawn(m, r)
        &&& forall|m: int, n: int|
            0 <= m <= MANUAL_COUNT ==> #[trigger] after.held(m, n) == if m == manual && n == note {
                value
            } else {
                self.held(m, n)
            }
    }

    /// `after` differs from `self` in one register of one manual at most, which
    /// is now drawn (`value`) or not.
    pub open spec fn register_moved(
        self,
        after: Player,
        manual: int,
        register: int,
        value: bool,
    ) -> bool {
        &&& forall|m: int, n: int|
            0 <= m <= MANUAL_COUNT ==> #[trigger] after.held(m, n) == self.held(m, n)
        &&& forall|m: int, r: int|
            0 <= m <= MANUAL_COUNT ==> #[trigger] after.drawn(m, r) == if m == manual && r
                == register {
                value
            } else {
                self.drawn(m, r)
            }
    }

    /// The manuals that are recorded for a pipe.
    spec fn sink(self, register: int, note: int) -> Set<int> {
        self.sinks@[register]@[note]@
    }

    spec fn shaped(self) -> bool {
        &&& self.registers@.len() == MANUAL_COUNT + 1
        &&& self.notes@.len() == MANUAL_COUNT + 1
        &&& self.sinks@.len() == REGISTER_COUNT
        &&& forall|register: int|
            0 <= register < REGISTER_COUNT ==> (#[trigger] self.sinks@[register])@.len()
                == NOTE_COUNT
    }

    /// Each pipe records exactly the manuals that hold it open.
    pub closed spec fn wf(self) -> bool {
        &&& self.shaped()
        &&& forall|register: int, note: int, manual: int|
            0 <= register < REGISTER_COUNT && 0 <= note < NOTE_COUNT ==> (#[trigger] self.sink(
                register,
                note,
            ).contains(manual) <==> self.opens(manual, register, note))
    }

    /// A player with no key held and no register drawn.
    pub fn new() -> (player: Player)
        ensures
            player.wf(),
            forall|manual: int, register: int|
                0 <= manual <= MANUAL_COUNT ==> !player.drawn(manual, register),
            forall|manual: int, note: int|
                0 <= manual <= MANUAL_COUNT ==> !player.held(manual, note),
    {
        let mut sinks: Vec<Vec<BitSet>> = Vec::new();
        while sinks.len() < REGISTER_COUNT
            invariant
                sinks@.len() <= REGISTER_COUNT,
                forall|register: int|
                    0 <= register < sinks@.len() ==> (#[trigger] sinks@[register])@.len()
                        == NOTE_COUNT,
                forall|register: int, note: int|
                    0 <= register < sinks@.len() && 0 <= note < NOTE_COUNT
                        ==> (#[trigger] sinks@[register]@[note])@ == Set::<int>::empty(),
            decreases REGISTER_COUNT - sinks@.len(),
        {
            sinks.push(empty_sets(NOTE_COUNT));
        }
        Player {
            sinks,
            notes: empty_sets(MANUAL_COUNT + 1),
            registers: empty_sets(MANUAL_COUNT + 1),
        }
    }

    /// Records in one pipe that a manual holds it open or not, and adds to
    /// `tasks` what follows.
    fn set_sink(
        sink: &mut BitSet,
        manual: u8,
        value: bool,
        register: u8,
        note: u8,
        tasks: &mut Vec<ScheduledTask>,
    )
        requires
            manual <= MANUAL_COUNT,
        ensures
            final(sink)@ == if value {
                old(sink)@.insert(manual as int)
            } else {
                old(sink)@.remove(manual as int)
            },
            final(tasks)@ == old(tasks)@ + pipe_change(
                old(sink)@ != Set::<int>::empty(),
                final(sink)@ != Set::<int>::empty(),
                register as int,
                note as int,
            ),
    {
        let was_sounding = !sink.is_empty();
        sink.set(manual as usize, value);
        let sounding = !sink.is_empty();
        if was_sounding && !sounding {
            tasks.push(ScheduledTask { note, register, task_type: ScheduledTaskType::FadeOut });
        } else if !was_sounding && sounding {
            tasks.push(ScheduledTask { note, register, task_type: ScheduledTaskType::Sample });
        }
    }

    /// A pipe sounds exactly when some manual is recorded for it.
    proof fn lemma_sink(self, register: int, note: int)
        requires
            self.wf(),
            0 <= register < REGISTER_COUNT,
            0 <= note < NOTE_COUNT,
        ensures
            self.sounds(register, note) <==> self.sink(register, note) != Set::<int>::empty(),
    {
        let sink = self.sink(register, note);
        if self.sounds(register, note) {
            let manual = choose|manual: int| self.opens(manual, register, note);
            assert(sink.contains(manual));
        } else {
            assert forall|manual: int| !sink.contains(manual) by {
                assert(!self.opens(manual, register, note));
            }
            assert(sink =~= Set::<int>::empty());
        }
    }

    /// A key of a manual goes down (`value`) or up. Returns, from the lowest
    /// register to the highest, the tasks for the pipes that start or stop.
    pub fn set_note(&mut self, manual: u8, note: u8, value: bool) -> (tasks: Vec<ScheduledTask>)
        requires
            old(self).wf(),
            manual <= MANUAL_COUNT,
            note < NOTE_COUNT,
        ensures
            final(self).wf(),
            old(self).key_moved(*final(self), manual as int, note as int, value),
            tasks@ == note_changes(*old(self), *final(self), note as int, REGISTER_COUNT as int),
    {
        let mut tasks: Vec<ScheduledTask> = Vec::new();
        self.notes[manual as usize].set(note as usize, value);
        let ghost held = *self;
        let mut register: usize = 0;
        while register < REGISTER_COUNT
            invariant
                register <= REGISTER_COUNT,
                manual <= MANUAL_COUNT,
                note < NOTE_COUNT,
                old(self).wf(),
                self.shaped(),
                held.notes == self.notes,
                held.registers == self.registers,
                self.registers == old(self).registers,
                self.notes@.len() == old(self).notes@.len(),
                forall|m: int|
                    0 <= m <= MANUAL_COUNT && m != manual ==> self.notes@[m] == old(
                        self,
                    ).notes@[m],
                self.notes@[manual as int]@ == if value {
                    old(self).notes@[manual as int]@.insert(note as int)
                } else {
                    old(self).notes@[manual as int]@.remove(note as int)
                },
                forall|r: int, n: int|
                    0 <= r < REGISTER_COUNT && 0 <= n < NOTE_COUNT && (n != note || r >= register)
                        ==> #[trigger] self.sink(r, n) == old(self).sink(r, n),
                forall|r: int, m: int|
                    0 <= r < register ==> (#[trigger] self.sink(r, note as int).contains(m)
                        <==> held.opens(m, r, note as int)),
                tasks@ == note_changes(*old(self), held, note as int, register as int),
            decreases REGISTER_COUNT - register,
        {
            let ghost previous = *self;
            proof {
                old(self).lemma_sink(register as int, note as int);
            }
            if self.registers[manual as usize].get(register) || !value {
                Self::set_sink(
                    &mut self.sinks[register][note as usize],
                    manual,
                    value,
                    register as u8,
                    note,
                    &mut tasks,
                );
            }
            proof {
                let sink = self.sink(register as int, note as int);
                assert(previous.sink(register as int, note as int) == old(self).sink(
                    register as int,
                    note as int,
                ));
                assert forall|m: int| sink.contains(m) <==> held.opens(
                    m,
                    register as int,
                    note as int,
                ) by {
                    assert(old(self).sink(register as int, note as int).contains(m) <==> old(
                        self,
                    ).opens(m, register as int, note as int));
                }
                if held.sounds(register as int, note as int) {
                    let m = choose|m: int| held.opens(m, register as int, note as int);
                    assert(sink.contains(m));
                } else {
                    assert forall|m: int| !sink.contains(m) by {
                        assert(!held.opens(m, register as int, note as int));
                    }
                    assert(sink =~= Set::<int>::empty());
                }
                assert forall|r: int, n: int|
                    0 <= r < REGISTER_COUNT && 0 <= n < NOTE_COUNT && (n != note || r
                        != register) implies #[trigger] self.sink(r, n) == previous.sink(r, n) by {}
            }
            register = register + 1;
        }
        proof {
            lemma_note_changes(*old(self), held, *self, note as int, REGISTER_COUNT as int);
        }
        tasks
    }

    /// A register is drawn on a manual (`value`) or pushed in. Returns, from the
    /// lowest key to the highest, the tasks for the pipes that start or stop.
    pub fn set_register(&mut self, manual: u8, register: u8, value: bool) -> (tasks: Vec<
        ScheduledTask,
    >)
        requires
            old(self).wf(),
            manual <= MANUAL_COUNT,
            register < REGISTER_COUNT,
        ensures
            final(self).wf(),
            old(self).register_moved(*final(self), manual as int, register as int, value),
            tasks@ == register_changes(
                *old(self),
                *final(self),
                register as int,
                NOTE_COUNT as int,
            ),
    {
        let mut tasks: Vec<ScheduledTask> = Vec::new();
        self.registers[manual as usize].set(register as usize, value);
        let ghost drawn = *self;
        let mut note: usize = 0;
        while note < NOTE_COUNT
            invariant
                note <= NOTE_COUNT,
                manual <= MANUAL_COUNT,
                register < REGISTER_COUNT,
                old(self).wf(),
                self.shaped(),
                drawn.notes == self.notes,
                drawn.registers == self.registers,
                self.notes == old(self).notes,
                self.registers@.len() == old(self).registers@.len(),
                forall|m: int|
                    0 <= m <= MANUAL_COUNT && m != manual ==> self.registers@[m] == old(
                        self,
                    ).registers@[m],
                self.registers@[manual as int]@ == if value {
                    old(self).registers@[manual as int]@.insert(register as int)
                } else {
                    old(self).registers@[manual as int]@.remove(register as int)
                },
                forall|r: int, n: int|
                    0 <= r < REGISTER_COUNT && 0 <= n < NOTE_COUNT && (r != register || n >= note)
                        ==> #[trigger] self.sink(r, n) == old(self).sink(r, n),
                forall|n: int, m: int|
                    0 <= n < note ==> (#[trigger] self.sink(register as int, n).contains(m)
                        <==> drawn.opens(m, register as int, n)),
                tasks@ == register_changes(*old(self), drawn, register as int, note as int),
            decreases NOTE_COUNT - note,
        {
            let ghost previous = *self;
            proof {
                old(self).lemma_sink(register as int, note as int);
            }
            if self.notes[manual as usize].get(note) || !value {
                Self::set_sink(
                    &mut self.sinks[register as usize][note],
                    manual,
                    value,
                    register,
                    note as u8,
                    &mut tasks,
                );
            }
            proof {
                let sink = self.sink(register as int, note as int);
                assert(previous.sink(register as int, note as int) == old(self).sink(
                    register as int,
                    note as int,
                ));
                assert forall|m: int| sink.contains(m) <==> drawn.opens(
                    m,
                    register as int,
                    note as int,
                ) by {
                    assert(old(self).sink(register as int, note as int).contains(m) <==> old(
                        self,
                    ).opens(m, register as int, note as int));
                }
                if drawn.sounds(register as int, note as int) {
                    let m = choose|m: int| drawn.opens(m, register as int, note as int);
                    assert(sink.contains(m));
                } else {
                    assert forall|m: int| !sink.contains(m) by {
                        assert(!drawn.opens(m, register as int, note as int));
                    }
                    assert(sink =~= Set::<int>::empty());
                }
                assert forall|r: int, n: int|
                    0 <= r < REGISTER_COUNT && 0 <= n < NOTE_COUNT && (r != register || n
                        != note) implies #[trigger] self.sink(r, n) == previous.sink(r, n) by {}
            }
            note = note + 1;
        }
        proof {
            lemma_register_changes(*old(self), drawn, *self, register as int, NOTE_COUNT as int);
        }
        tasks
    }

    /// The tasks for the pipes that start or stop, when a task takes the player
    /// from `self` to `after`.
    pub open spec fn changes(self, task: ScheduledTask, after: Player) -> Seq<ScheduledTask> {
        match task.task_type {
            ScheduledTaskType::Note(_, _) => note_changes(
                self,
                after,
                task.note as int,
                REGISTER_COUNT as int,
            ),
            ScheduledTaskType::Register(_, _) => register_changes(
                self,
                after,
                task.register as int,
                NOTE_COUNT as int,
            ),
            _ => Seq::empty(),
        }
    }

    /// The actions that a task calls for, when it takes the player from `self`
    /// to `after`.
    pub open spec fn actions(self, task: ScheduledTask, after: Player) -> Seq<PlayerAction> {
        match task.task_type {
            ScheduledTaskType::Note(_, _) => scheduled(self.changes(task, after)),
            ScheduledTaskType::Register(_, _) => scheduled(self.changes(task, after)),
            ScheduledTaskType::Sample => seq![
                PlayerAction::Stream(SampleMessage::NewNote((task.register, task.note))),
            ],
            ScheduledTaskType::FadeOut => seq![
                PlayerAction::Stream(SampleMessage::Stop(task.register, task.note)),
            ],
            ScheduledTaskType::Nothing => Seq::empty(),
        }
    }

    /// The task takes the player from `self` to `after`.
    pub open spec fn moves(self, task: ScheduledTask, after: Player) -> bool {
        match task.task_type {
            ScheduledTaskType::Note(manual, value) => self.key_moved(
                after,
                manual as int,
                task.note as int,
                value,
            ),
            ScheduledTaskType::Register(manual, value) => self.register_moved(
                after,
                manual as int,
                task.register as int,
                value,
            ),
            _ => after == self,
        }
    }

    /// Carries out one task from the queue.
    pub fn handle(&mut self, task: ScheduledTask) -> (actions: Vec<PlayerAction>)
        requires
            old(self).wf(),
            task.valid(),
        ensures
            final(self).wf(),
            old(self).moves(task, *final(self)),
            actions@ == old(self).actions(task, *final(self)),
    {
        match task.task_type {
            ScheduledTaskType::Note(manual, value) => {
                let tasks = self.set_note(manual, task.note, value);
                schedule(&tasks)
            },
            ScheduledTaskType::Register(manual, value) => {
                let tasks = self.set_register(manual, task.register, value);
                schedule(&tasks)
            },
            ScheduledTaskType::Sample => {
                let mut actions: Vec<PlayerAction> = Vec::new();
                actions.push(
                    PlayerAction::Stream(SampleMessage::NewNote((task.register, task.note))),
                );
                actions
            },
            ScheduledTaskType::FadeOut => {
                let mut actions: Vec<PlayerAction> = Vec::new();
                actions.push(PlayerAction::Stream(SampleMessage::Stop(task.register, task.note)));
                actions
            },
            ScheduledTaskType::Nothing => Vec::new(),
        }
    }
}

/// The keys and registers decide which pipes sound.
proof fn lemma_same_sounds(a: Player, b: Player, register: int, note: int)
    requires
        a.notes == b.notes,
        a.registers == b.registers,
    ensures
        a.sounds(register, note) == b.sounds(register, note),
{
    if a.sounds(register, note) {
        let manual = choose|manual: int| a.opens(manual, register, note);
        assert(b.opens(manual, register, note));
    }
    if b.sounds(register, note) {
        let manual = choose|manual: int| b.opens(manual, register, note);
        assert(a.opens(manual, register, note));
    }
}

/// The tasks depend on which pipes sound, and on nothing else.
proof fn lemma_note_changes(before: Player, after: Player, other: Player, note: int, count: int)
    requires
        after.notes == other.notes,
        after.registers == other.registers,
    ensures
        note_changes(before, after, note, count) == note_changes(before, other, note, count),
    decreases count,
{
    if count > 0 {
        lemma_note_changes(before, after, other, note, count - 1);
        lemma_same_sounds(after, other, count - 1, note);
    }
}

proof fn lemma_register_changes(
    before: Player,
    after: Player,
    other: Player,
    register: int,
    count: int,
)
    requires
        after.notes == other.notes,
        after.registers == other.registers,
    ensures
        register_changes(before, after, register, count) == register_changes(
            before,
            other,
            register,
            count,
        ),
    decreases count,
{
    if count > 0 {
        lemma_register_changes(before, after, other, register, count - 1);
        lemma_same_sounds(after, other, register, count - 1);
    }
}

/// Each task as an action for the player's own queue.
pub open spec fn scheduled(tasks: Seq<ScheduledTask>) -> Seq<PlayerAction> {
    tasks.map_values(|task: ScheduledTask| PlayerAction::Schedule(task))
}

fn schedule(tasks: &Vec<ScheduledTask>) -> (actions: Vec<PlayerAction>)
    ensures
        actions@ == scheduled(tasks@),
{
    let mut actions: Vec<PlayerAction> = Vec::new();
    let mut i: usize = 0;
    while i < tasks.len()
        invariant
            i <= tasks@.len(),
            actions@.len() == i,
            forall|k: int| 0 <= k < i ==> actions@[k] == PlayerAction::Schedule(tasks@[k]),
        decreases tasks@.len() - i,
    {
        actions.push(PlayerAction::Schedule(tasks[i]));
        i = i + 1;
    }
    actions
}

/// `count` empty sets.
fn empty_sets(count: usize) -> (sets: Vec<BitSet>)
    ensures
        sets@.len() == count,
        forall|i: int| 0 <= i < count ==> (#[trigger] sets@[i])@ == Set::<int>::empty(),
{
    let mut sets: Vec<BitSet> = Vec::new();
    while sets.len() < count
        invariant
            sets@.len() <= count,
            forall|i: int| 0 <= i < sets@.len() ==> (#[trigger] sets@[i])@ == Set::<int>::empty(),
        decreases count - sets@.len(),
    {
        sets.push(BitSet::new());
    }
    sets
}

/// The task that undoes another: a started pipe stops, a stopped
/// one starts.
pub open spec fn reversed(task: ScheduledTask) -> ScheduledTask {
    ScheduledTask {
        note: task.note,
        register: task.register,
        task_type: match task.task_type {
            ScheduledTaskType::Sample => ScheduledTaskType::FadeOut,
            ScheduledTaskType::FadeOut => ScheduledTaskType::Sample,
            other => other,
        },
    }
}

/// The task starts a silent pipe or stops a sounding one.
pub open spec fn task_is_change(before: Player, after: Player, task: ScheduledTask) -> bool {
    let was = before.sounds(task.register as int, task.note as int);
    let now = after.sounds(task.register as int, task.note as int);
    match task.task_type {
        ScheduledTaskType::Sample => !was && now,
        ScheduledTaskType::FadeOut => was && !now,
        _ => false,
    }
}

/// When a key moves, every task starts a pipe that was silent or stops one that
/// sounded, no pipe is named twice, and every pipe of the key that changes is
/// named.
pub proof fn law_note_tasks(before: Player, after: Player, note: int, count: int)
    requires
        0 <= note < NOTE_COUNT,
        0 <= count <= REGISTER_COUNT,
    ensures
        forall|i: int|
            0 <= i < note_changes(before, after, note, count).len() ==> {
                let task = #[trigger] note_changes(before, after, note, count)[i];
                &&& task.note == note
                &&& task.register < count
                &&& task_is_change(before, after, task)
            },
        forall|i: int, j: int|
            0 <= i < j < note_changes(before, after, note, count).len() ==> (
            #[trigger] note_changes(before, after, note, count)[i]).register < (
            #[trigger] note_changes(before, after, note, count)[j]).register,
        forall|register: int|
            0 <= register < count && before.sounds(register, note) != after.sounds(register, note)
                ==> exists|i: int|
                0 <= i < note_changes(before, after, note, count).len() && (
                #[trigger] note_changes(before, after, note, count)[i]).register == register,
    decreases count,
{
    if count > 0 {
        let last = count - 1;
        law_note_tasks(before, after, note, last);
        let head = note_changes(before, after, note, last);
        let tail = pipe_change(
            before.sounds(last, note),
            after.sounds(last, note),
            last,
            note,
        );
        let tasks = note_changes(before, after, note, count);
        assert(tasks == head + tail);
        assert forall|i: int| 0 <= i < tasks.len() implies {
            let task = #[trigger] tasks[i];
            &&& task.note == note
            &&& task.register < count
            &&& task_is_change(before, after, task)
        } by {
            if i < head.len() {
                assert(tasks[i] == head[i]);
            } else {
                assert(tasks[i] == tail[i - head.len()]);
            }
        }
        assert forall|i: int, j: int| 0 <= i < j < tasks.len() implies (
        #[trigger] tasks[i]).register < (#[trigger] tasks[j]).register by {
            assert(tasks[i] == head[i]);
            if j < head.len() {
                assert(tasks[j] == head[j]);
            } else {
                assert(tasks[j] == tail[0]);
            }
        }
        assert forall|register: int|
            0 <= register < count && before.sounds(register, note) != after.sounds(
                register,
                note,
            ) implies exists|i: int|
            0 <= i < tasks.len() && (#[trigger] tasks[i]).register == register by {
            if register == last {
                assert(tasks[head.len() as int] == tail[0]);
            } else {
                let i = choose|i: int|
                    0 <= i < head.len() && (#[trigger] head[i]).register == register;
                assert(tasks[i] == head[i]);
            }
        }
    }
}

/// When a register moves, every task starts a pipe that was silent or stops one
/// that sounded, no pipe is named twice, and every pipe of the register that
/// changes is named.
pub proof fn law_register_tasks(before: Player, after: Player, register: int, count: int)
    requires
        0 <= register < REGISTER_COUNT,
        0 <= count <= NOTE_COUNT,
    ensures
        forall|i: int|
            0 <= i < register_changes(before, after, register, count).len() ==> {
                let task = #[trigger] register_changes(before, after, register, count)[i];
                &&& task.register == register
                &&& task.note < count
                &&& task_is_change(before, after, task)
            },
        forall|i: int, j: int|
            0 <= i < j < register_changes(before, after, register, count).len() ==> (
            #[trigger] register_changes(before, after, register, count)[i]).note < (
            #[trigger] register_changes(before, after, register, count)[j]).note,
        forall|note: int|
            0 <= note < count && before.sounds(register, note) != after.sounds(register, note)
                ==> exists|i: int|
                0 <= i < register_changes(before, after, register, count).len() && (
                #[trigger] register_changes(before, after, register, count)[i]).note == note,
    decreases count,
{
    if count > 0 {
        let last = count - 1;
        law_register_tasks(before, after, register, last);
        let head = register_changes(before, after, register, last);
        let tail = pipe_change(
            before.sounds(register, last),
            after.sounds(register, last),
            register,
            last,
        );
        let tasks = register_changes(before, after, register, count);
        assert(tasks == head + tail);
        assert forall|i: int| 0 <= i < tasks.len() implies {
            let task = #[trigger] tasks[i];
            &&& task.register == register
            &&& task.note < count
            &&& task_is_change(before, after, task)
        } by {
            if i < head.len() {
                assert(tasks[i] == head[i]);
            } else {
                assert(tasks[i] == tail[i - head.len()]);
            }
        }
        assert forall|i: int, j: int| 0 <= i < j < tasks.len() implies (#[trigger] tasks[i]).note
            < (#[trigger] tasks[j]).note by {
            assert(tasks[i] == head[i]);
            if j < head.len() {
                assert(tasks[j] == head[j]);
            } else {
                assert(tasks[j] == tail[0]);
            }
        }
        assert forall|note: int|
            0 <= note < count && before.sounds(register, note) != after.sounds(
                register,
                note,
            ) implies exists|i: int|
            0 <= i < tasks.len() && (#[trigger] tasks[i]).note == note by {
            if note == last {
                assert(tasks[head.len() as int] == tail[0]);
            } else {
                let i = choose|i: int| 0 <= i < head.len() && (#[trigger] head[i]).note == note;
                assert(tasks[i] == head[i]);
            }
        }
    }
}

/// Whether a pipe sounds, for someone who knows whether it did before, and hears
/// the tasks.
pub open spec fn told(
    before: bool,
    tasks: Seq<ScheduledTask>,
    register: int,
    note: int,
) -> bool
    decreases tasks.len(),
{
    if tasks.len() == 0 {
        before
    } else {
        let task = tasks.last();
        let earlier = told(before, tasks.drop_last(), register, note);
        if task.register != register || task.note != note {
            earlier
        } else {
            match task.task_type {
                ScheduledTaskType::Sample => true,
                ScheduledTaskType::FadeOut => false,
                _ => earlier,
            }
        }
    }
}

/// The task of one pipe tells of it, and of no other.
proof fn lemma_told_adds(
    start: bool,
    tasks: Seq<ScheduledTask>,
    before: bool,
    after: bool,
    changed: (int, int),
    register: int,
    note: int,
)
    requires
        0 <= changed.0 < REGISTER_COUNT,
        0 <= changed.1 < NOTE_COUNT,
    ensures
        told(start, tasks + pipe_change(before, after, changed.0, changed.1), register, note)
            == if changed == (register, note) && before != after {
            after
        } else {
            told(start, tasks, register, note)
        },
{
    let change = pipe_change(before, after, changed.0, changed.1);
    let all = tasks + change;
    if before == after {
        assert(all =~= tasks);
    } else {
        assert(all.drop_last() =~= tasks);
        assert(all.last() == change[0]);
    }
}

/// The tasks of the first `count` registers tell of these.
proof fn lemma_note_changes_tell(
    before: Player,
    after: Player,
    moved: int,
    count: int,
    register: int,
    note: int,
)
    requires
        0 <= moved < NOTE_COUNT,
        0 <= count <= REGISTER_COUNT,
    ensures
        told(
            before.sounds(register, note),
            note_changes(before, after, moved, count),
            register,
            note,
        ) == if note == moved && 0 <= register < count {
            after.sounds(register, note)
        } else {
            before.sounds(register, note)
        },
    decreases count,
{
    if count > 0 {
        let last = count - 1;
        lemma_note_changes_tell(before, after, moved, last, register, note);
        lemma_told_adds(
            before.sounds(register, note),
            note_changes(before, after, moved, last),
            before.sounds(last, moved),
            after.sounds(last, moved),
            (last, moved),
            register,
            note,
        );
    }
}

/// The tasks of the first `count` keys tell of these.
proof fn lemma_register_changes_tell(
    before: Player,
    after: Player,
    moved: int,
    count: int,
    register: int,
    note: int,
)
    requires
        0 <= moved < REGISTER_COUNT,
        0 <= count <= NOTE_COUNT,
    ensures
        told(
            before.sounds(register, note),
            register_changes(before, after, moved, count),
            register,
            note,
        ) == if register == moved && 0 <= note < count {
            after.sounds(register, note)
        } else {
            before.sounds(register, note)
        },
    decreases count,
{
    if count > 0 {
        let last = count - 1;
        lemma_register_changes_tell(before, after, moved, last, register, note);
        lemma_told_adds(
            before.sounds(register, note),
            register_changes(before, after, moved, last),
            before.sounds(moved, last),
            after.sounds(moved, last),
            (moved, last),
            register,
            note,
        );
    }
}

/// Whoever hears the tasks of a key that moves knows of every pipe of the organ
/// whether it sounds.
pub proof fn law_key_tasks_tell_all(
    before: Player,
    after: Player,
    manual: int,
    moved: int,
    value: bool,
    register: int,
    note: int,
)
    requires
        before.key_moved(after, manual, moved, value),
        0 <= moved < NOTE_COUNT,
        0 <= register < REGISTER_COUNT,
        0 <= note < NOTE_COUNT,
    ensures
        told(
            before.sounds(register, note),
            note_changes(before, after, moved, REGISTER_COUNT as int),
            register,
            note,
        ) == after.sounds(register, note),
{
    lemma_note_changes_tell(before, after, moved, REGISTER_COUNT as int, register, note);
    if note != moved {
        if before.sounds(register, note) {
            let m = choose|m: int| before.opens(m, register, note);
            assert(after.opens(m, register, note));
        }
        if after.sounds(register, note) {
            let m = choose|m: int| after.opens(m, register, note);
            assert(before.opens(m, register, note));
        }
    }
}

/// Whoever hears the tasks of a register that moves knows of every pipe of the
/// organ whether it sounds.
pub proof fn law_register_tasks_tell_all(
    before: Player,
    after: Player,
    manual: int,
    moved: int,
    value: bool,
    register: int,
    note: int,
)
    requires
        before.register_moved(after, manual, moved, value),
        0 <= moved < REGISTER_COUNT,
        0 <= register < REGISTER_COUNT,
        0 <= note < NOTE_COUNT,
    ensures
        told(
            before.sounds(register, note),
            register_changes(before, after, moved, NOTE_COUNT as int),
            register,
            note,
        ) == after.sounds(register, note),
{
    lemma_register_changes_tell(before, after, moved, NOTE_COUNT as int, register, note);
    if register != moved {
        if before.sounds(register, note) {
            let m = choose|m: int| before.opens(m, register, note);
            assert(after.opens(m, register, note));
        }
        if after.sounds(register, note) {
            let m = choose|m: int| after.opens(m, register, note);
            assert(before.opens(m, register, note));
        }
    }
}

/// A pipe that sounds or not at first is told in turn to stop and to start: no
/// task starts it while it sounds, or stops it while it does not.
pub open spec fn alternates(
    before: bool,
    tasks: Seq<ScheduledTask>,
    register: int,
    note: int,
) -> bool
    decreases tasks.len(),
{
    if tasks.len() == 0 {
        true
    } else {
        let task = tasks.last();
        let earlier = tasks.drop_last();
        &&& alternates(before, earlier, register, note)
        &&& task.register == register && task.note == note ==> match task.task_type {
            ScheduledTaskType::Sample => !told(before, earlier, register, note),
            ScheduledTaskType::FadeOut => told(before, earlier, register, note),
            _ => true,
        }
    }
}

/// Some tasks, and then some more.
proof fn lemma_history_adds(
    before: bool,
    first: Seq<ScheduledTask>,
    second: Seq<ScheduledTask>,
    register: int,
    note: int,
)
    ensures
        told(before, first + second, register, note) == told(
            told(before, first, register, note),
            second,
            register,
            note,
        ),
        alternates(before, first + second, register, note) == (alternates(
            before,
            first,
            register,
            note,
        ) && alternates(told(before, first, register, note), second, register, note)),
    decreases second.len(),
{
    if second.len() == 0 {
        assert(first + second =~= first);
    } else {
        lemma_history_adds(before, first, second.drop_last(), register, note);
        assert((first + second).drop_last() =~= first + second.drop_last());
        assert((first + second).last() == second.last());
    }
}

/// The task of one pipe, if it sounded as the task says, keeps the turn.
proof fn lemma_alternates_adds(
    start: bool,
    tasks: Seq<ScheduledTask>,
    before: bool,
    after: bool,
    changed: (int, int),
    register: int,
    note: int,
)
    requires
        0 <= changed.0 < REGISTER_COUNT,
        0 <= changed.1 < NOTE_COUNT,
        alternates(start, tasks, register, note),
        changed == (register, note) ==> told(start, tasks, register, note) == before,
    ensures
        alternates(
            start,
            tasks + pipe_change(before, after, changed.0, changed.1),
            register,
            note,
        ),
{
    let change = pipe_change(before, after, changed.0, changed.1);
    let all = tasks + change;
    if before == after {
        assert(all =~= tasks);
    } else {
        assert(all.drop_last() =~= tasks);
        assert(all.last() == change[0]);
    }
}

proof fn lemma_note_changes_alternate(
    before: Player,
    after: Player,
    moved: int,
    count: int,
    register: int,
    note: int,
)
    requires
        0 <= moved < NOTE_COUNT,
        0 <= count <= REGISTER_COUNT,
    ensures
        alternates(
            before.sounds(register, note),
            note_changes(before, after, moved, count),
            register,
            note,
        ),
    decreases count,
{
    if count > 0 {
        let last = count - 1;
        lemma_note_changes_alternate(before, after, moved, last, register, note);
        lemma_note_changes_tell(before, after, moved, last, register, note);
        lemma_alternates_adds(
            before.sounds(register, note),
            note_changes(before, after, moved, last),
            before.sounds(last, moved),
            after.sounds(last, moved),
            (last, moved),
            register,
            note,
        );
    }
}

proof fn lemma_register_changes_alternate(
    before: Player,
    after: Player,
    moved: int,
    count: int,
    register: int,
    note: int,
)
    requires
        0 <= moved < REGISTER_COUNT,
        0 <= count <= NOTE_COUNT,
    ensures
        alternates(
            before.sounds(register, note),
            register_changes(before, after, moved, count),
            register,
            note,
        ),
    decreases count,
{
    if count > 0 {
        let last = count - 1;
        lemma_register_changes_alternate(before, after, moved, last, register, note);
        lemma_register_changes_tell(before, after, moved, last, register, note);
        lemma_alternates_adds(
            before.sounds(register, note),
            register_changes(before, after, moved, last),
            before.sounds(moved, last),
            after.sounds(moved, last),
            (moved, last),
            register,
            note,
        );
    }
}

/// The tasks for pipes that follow from the first `count` tasks of a history.
pub open spec fn history_changes(
    players: Seq<Player>,
    tasks: Seq<ScheduledTask>,
    count: int,
) -> Seq<ScheduledTask>
    decreases count,
{
    if count <= 0 {
        Seq::empty()
    } else {
        history_changes(players, tasks, count - 1) + players[count - 1].changes(
            tasks[count - 1],
            players[count],
        )
    }
}

/// Over any history of keys and registers, each pipe is told in turn to start
/// and to stop, and whoever hears it knows at the end whether the pipe sounds.
pub proof fn law_history_alternates(
    players: Seq<Player>,
    tasks: Seq<ScheduledTask>,
    count: int,
    register: int,
    note: int,
)
    requires
        0 <= count <= tasks.len(),
        players.len() == tasks.len() + 1,
        forall|i: int|
            0 <= i < tasks.len() ==> (#[trigger] tasks[i]).valid() && players[i].moves(
                tasks[i],
                players[i + 1],
            ),
        0 <= register < REGISTER_COUNT,
        0 <= note < NOTE_COUNT,
    ensures
        alternates(
            players[0].sounds(register, note),
            history_changes(players, tasks, count),
            register,
            note,
        ),
        told(
            players[0].sounds(register, note),
            history_changes(players, tasks, count),
            register,
            note,
        ) == players[count].sounds(register, note),
    decreases count,
{
    if count > 0 {
        let last = count - 1;
        law_history_alternates(players, tasks, last, register, note);
        let task = tasks[last];
        let before = players[last];
        let after = players[count];
        assert(task.valid() && before.moves(task, after));
        lemma_history_adds(
            players[0].sounds(register, note),
            history_changes(players, tasks, last),
            before.changes(task, after),
            register,
            note,
        );
        match task.task_type {
            ScheduledTaskType::Note(manual, value) => {
                law_key_tasks_tell_all(
                    before,
                    after,
                    manual as int,
                    task.note as int,
                    value,
                    register,
                    note,
                );
                lemma_note_changes_alternate(
                    before,
                    after,
                    task.note as int,
                    REGISTER_COUNT as int,
                    register,
                    note,
                );
            },
            ScheduledTaskType::Register(manual, value) => {
                law_register_tasks_tell_all(
                    before,
                    after,
                    manual as int,
                    task.register as int,
                    value,
                    register,
                    note,
                );
                lemma_register_changes_alternate(
                    before,
                    after,
                    task.register as int,
                    NOTE_COUNT as int,
                    register,
                    note,
                );
            },
            _ => {},
        }
    }
}

/// A pipe that another manual holds open goes on sounding, whatever happens to
/// a key of this manual.
pub proof fn law_other_manual_keeps_pipe(
    before: Player,
    after: Player,
    manual: int,
    note: int,
    value: bool,
    other: int,
    register: int,
)
    requires
        before.key_moved(after, manual, note, value),
        other != manual,
        before.opens(other, register, note),
    ensures
        before.sounds(register, note),
        after.sounds(register, note),
{
    assert(after.opens(other, register, note));
}

/// A pipe that another manual holds open goes on sounding, whatever happens to
/// its register on this manual.
pub proof fn law_other_manual_keeps_register(
    before: Player,
    after: Player,
    manual: int,
    register: int,
    value: bool,
    other: int,
    note: int,
)
    requires
        before.register_moved(after, manual, register, value),
        other != manual,
        before.opens(other, register, note),
    ensures
        before.sounds(register, note),
        after.sounds(register, note),
{
    assert(after.opens(other, register, note));
}

/// Releasing a key that was pressed brings every pipe back to what it was, and
/// the tasks of the release are those of the press, reversed.
pub proof fn law_release_undoes_press(
    before: Player,
    pressed: Player,
    released: Player,
    manual: int,
    note: int,
    count: int,
)
    requires
        0 <= manual <= MANUAL_COUNT,
        !before.held(manual, note),
        before.key_moved(pressed, manual, note, true),
        pressed.key_moved(released, manual, note, false),
    ensures
        forall|r: int, n: int| #[trigger] released.sounds(r, n) == before.sounds(r, n),
        note_changes(pressed, released, note, count) == note_changes(
            before,
            pressed,
            note,
            count,
        ).map_values(|task: ScheduledTask| reversed(task)),
    decreases count,
{
    assert forall|r: int, n: int| #[trigger] released.sounds(r, n) == before.sounds(r, n) by {
        if released.sounds(r, n) {
            let m = choose|m: int| released.opens(m, r, n);
            assert(before.opens(m, r, n));
        }
        if before.sounds(r, n) {
            let m = choose|m: int| before.opens(m, r, n);
            assert(released.opens(m, r, n));
        }
    }
    if count > 0 {
        law_release_undoes_press(before, pressed, released, manual, note, count - 1);
        let r = count - 1;
        assert(released.sounds(r, note) == before.sounds(r, note));
        let there = pipe_change(before.sounds(r, note), pressed.sounds(r, note), r, note);
        let back = pipe_change(pressed.sounds(r, note), released.sounds(r, note), r, note);
        assert(back =~= there.map_values(|task: ScheduledTask| reversed(task)));
    }
    assert(note_changes(pressed, released, note, count) =~= note_changes(
        before,
        pressed,
        note,
        count,
    ).map_values(|task: ScheduledTask| reversed(task)));
}

/// Pushing in a register that was drawn brings every pipe back to what it was,
/// and its tasks are those of the drawing, reversed.
pub proof fn law_push_undoes_draw(
    before: Player,
    pulled: Player,
    pushed: Player,
    manual: int,
    register: int,
    count: int,
)
    requires
        0 <= manual <= MANUAL_COUNT,
        !before.drawn(manual, register),
        before.register_moved(pulled, manual, register, true),
        pulled.register_moved(pushed, manual, register, false),
    ensures
        forall|r: int, n: int| #[trigger] pushed.sounds(r, n) == before.sounds(r, n),
        register_changes(pulled, pushed, register, count) == register_changes(
            before,
            pulled,
            register,
            count,
        ).map_values(|task: ScheduledTask| reversed(task)),
    decreases count,
{
    assert forall|r: int, n: int| #[trigger] pushed.sounds(r, n) == before.sounds(r, n) by {
        if pushed.sounds(r, n) {
            let m = choose|m: int| pushed.opens(m, r, n);
            assert(before.opens(m, r, n));
        }
        if before.sounds(r, n) {
            let m = choose|m: int| before.opens(m, r, n);
            assert(pushed.opens(m, r, n));
        }
    }
    if count > 0 {
        law_push_undoes_draw(before, pulled, pushed, manual, register, count - 1);
        let n = count - 1;
        assert(pushed.sounds(register, n) == before.sounds(register, n));
        let there = pipe_change(before.sounds(register, n), pulled.sounds(register, n), register, n);
        let back = pipe_change(pulled.sounds(register, n), pushed.sounds(register, n), register, n);
        assert(back =~= there.map_values(|task: ScheduledTask| reversed(task)));
    }
    assert(register_changes(pulled, pushed, register, count) =~= register_changes(
        before,
        pulled,
        register,
        count,
    ).map_values(|task: ScheduledTask| reversed(task)));
}

/// Whether the key goes down first or the register is drawn first, the same
/// pipes sound in the end.
pub proof fn law_key_and_register_commute(
    before: Player,
    key_first: Player,
    key_then_register: Player,
    register_first: Player,
    register_then_key: Player,
    key_manual: int,
    note: int,
    down: bool,
    register_manual: int,
    register: int,
    pull: bool,
)
    requires
        before.key_moved(key_first, key_manual, note, down),
        key_first.register_moved(key_then_register, register_manual, register, pull),
        before.register_moved(register_first, register_manual, register, pull),
        register_first.key_moved(register_then_key, key_manual, note, down),
    ensures
        forall|r: int, n: int| #[trigger]
            key_then_register.sounds(r, n) == register_then_key.sounds(r, n),
{
    assert forall|r: int, n: int| #[trigger]
        key_then_register.sounds(r, n) == register_then_key.sounds(r, n) by {
        if key_then_register.sounds(r, n) {
            let m = choose|m: int| key_then_register.opens(m, r, n);
            assert(register_then_key.opens(m, r, n));
        }
        if register_then_key.sounds(r, n) {
            let m = choose|m: int| register_then_key.opens(m, r, n);
            assert(key_then_register.opens(m, r, n));
        }
    }
}

/// A pipe sounds exactly when, on one of the four manuals, its register is drawn and
/// its key is held.
pub proof fn law_pipe_sounds(player: Player, register: int, note: int)
    ensures
        player.sounds(register, note) <==> {
            ||| player.drawn(0, register) && player.held(0, note)
            ||| player.drawn(1, register) && player.held(1, note)
            ||| player.drawn(2, register) && player.held(2, note)
            ||| player.drawn(3, register) && player.held(3, note)
        },
{
    assert(player.opens(0, register, note) <==> player.drawn(0, register) && player.held(0, note));
    assert(player.opens(1, register, note) <==> player.drawn(1, register) && player.held(1, note));
    assert(player.opens(2, register, note) <==> player.drawn(2, register) && player.held(2, note));
    assert(player.opens(3, register, note) <==> player.drawn(3, register) && player.held(3, note));
    if player.sounds(register, note) {
        let manual = choose|manual: int| player.opens(manual, register, note);
        assert(manual == 0 || manual == 1 || manual == 2 || manual == 3);
    }
}

/// A task for a key holds it or lets it go, a task for a register draws it or pushes
/// it in; every other key and register stays, on every manual. Other tasks move
/// nothing.
pub proof fn law_tasks_move(
    before: Player,
    task: ScheduledTask,
    after: Player,
    manual: int,
    register: int,
    note: int,
)
    requires
        before.moves(task, after),
        0 <= manual < 4,
    ensures
        match task.task_type {
            ScheduledTaskType::Note(moved, value) => {
                &&& after.drawn(manual, register) == before.drawn(manual, register)
                &&& manual == moved && note == task.note ==> after.held(manual, note) == value
                &&& manual != moved || note != task.note ==> after.held(manual, note)
                    == before.held(manual, note)
            },
            ScheduledTaskType::Register(moved, value) => {
                &&& after.held(manual, note) == before.held(manual, note)
                &&& manual == moved && register == task.register ==> after.drawn(manual, register)
                    == value
                &&& manual != moved || register != task.register ==> after.drawn(manual, register)
                    == before.drawn(manual, register)
            },
            _ => after == before,
        },
{
}

/// What is in two lists of tasks.
pub(crate) proof fn lemma_tasks_in_both(
    first: Seq<ScheduledTask>,
    second: Seq<ScheduledTask>,
    task: ScheduledTask,
)
    ensures
        (first + second).contains(task) <==> first.contains(task) || second.contains(task),
{
    let both = first + second;
    if first.contains(task) {
        let i = choose|i: int| 0 <= i < first.len() && first[i] == task;
        assert(both[i] == task);
    }
    if second.contains(task) {
        let i = choose|i: int| 0 <= i < second.len() && second[i] == task;
        assert(both[first.len() + i] == task);
    }
    if both.contains(task) {
        let i = choose|i: int| 0 <= i < both.len() && both[i] == task;
        if i < first.len() {
            assert(first[i] == task);
        } else {
            assert(second[i - first.len()] == task);
        }
    }
}

/// A task for a pipe follows exactly when the pipe changes as it says.
proof fn lemma_pipe_change_named(
    before: bool,
    after: bool,
    register: int,
    note: int,
    task: ScheduledTask,
)
    requires
        0 <= register < 256,
        0 <= note < 256,
    ensures
        pipe_change(before, after, register, note).contains(task) <==> {
            &&& task.register == register
            &&& task.note == note
            &&& before != after
            &&& task.task_type == if after {
                ScheduledTaskType::Sample
            } else {
                ScheduledTaskType::FadeOut
            }
        },
{
    let change = pipe_change(before, after, register, note);
    if before != after {
        assert(change.len() == 1);
        assert(change[0].register == register && change[0].note == note);
        if change.contains(task) {
            let i = choose|i: int| 0 <= i < change.len() && change[i] == task;
            assert(i == 0);
        }
    }
}

/// The tasks of a key name the pipes of that key that change.
proof fn lemma_note_changes_named(
    before: Player,
    after: Player,
    note: int,
    count: int,
    task: ScheduledTask,
)
    requires
        0 <= note < NOTE_COUNT,
        0 <= count <= REGISTER_COUNT,
    ensures
        note_changes(before, after, note, count).contains(task) <==> {
            &&& task.note == note
            &&& task.register < count
            &&& before.sounds(task.register as int, note) != after.sounds(
                task.register as int,
                note,
            )
            &&& task.task_type == if after.sounds(task.register as int, note) {
                ScheduledTaskType::Sample
            } else {
                ScheduledTaskType::FadeOut
            }
        },
    decreases count,
{
    if count > 0 {
        let last = count - 1;
        lemma_note_changes_named(before, after, note, last, task);
        let change = pipe_change(before.sounds(last, note), after.sounds(last, note), last, note);
        lemma_pipe_change_named(
            before.sounds(last, note),
            after.sounds(last, note),
            last,
            note,
            task,
        );
        lemma_tasks_in_both(note_changes(before, after, note, last), change, task);
    }
}

/// The tasks of a register name the pipes of that register that change.
proof fn lemma_register_changes_named(
    before: Player,
    after: Player,
    register: int,
    count: int,
    task: ScheduledTask,
)
    requires
        0 <= register < REGISTER_COUNT,
        0 <= count <= NOTE_COUNT,
    ensures
        register_changes(before, after, register, count).contains(task) <==> {
            &&& task.register == register
            &&& task.note < count
            &&& before.sounds(register, task.note as int) != after.sounds(
                register,
                task.note as int,
            )
            &&& task.task_type == if after.sounds(register, task.note as int) {
                ScheduledTaskType::Sample
            } else {
                ScheduledTaskType::FadeOut
            }
        },
    decreases count,
{
    if count > 0 {
        let last = count - 1;
        lemma_register_changes_named(before, after, register, last, task);
        let was = before.sounds(register, last);
        let now = after.sounds(register, last);
        lemma_pipe_change_named(was, now, register, last, task);
        lemma_tasks_in_both(
            register_changes(before, after, register, last),
            pipe_change(was, now, register, last),
            task,
        );
    }
}

/// A key or a register of one manual changes only pipes of its own.
proof fn lemma_other_pipes_stay(
    before: Player,
    task: ScheduledTask,
    after: Player,
    register: int,
    note: int,
)
    requires
        before.moves(task, after),
        match task.task_type {
            ScheduledTaskType::Note(_, _) => note != task.note,
            ScheduledTaskType::Register(_, _) => register != task.register,
            _ => false,
        },
    ensures
        before.sounds(register, note) == after.sounds(register, note),
{
    law_pipe_sounds(before, register, note);
    law_pipe_sounds(after, register, note);
    law_tasks_move(before, task, after, 0, register, note);
    law_tasks_move(before, task, after, 1, register, note);
    law_tasks_move(before, task, after, 2, register, note);
    law_tasks_move(before, task, after, 3, register, note);
}

/// What follows from a key or a register: a pipe is told to start exactly when it
/// was silent and sounds now, and to stop exactly when it sounded and is silent now,
/// and nothing else follows.
pub proof fn law_actions_tell_pipes(
    before: Player,
    task: ScheduledTask,
    after: Player,
    action: PlayerAction,
)
    requires
        task.valid(),
        before.moves(task, after),
        task.task_type is Note || task.task_type is Register,
    ensures
        before.actions(task, after).contains(action) <==> {
            &&& action matches PlayerAction::Schedule(told)
            &&& told.register < 128
            &&& told.note < 61
            &&& match told.task_type {
                ScheduledTaskType::Sample => !before.sounds(told.register as int, told.note as int)
                    && after.sounds(told.register as int, told.note as int),
                ScheduledTaskType::FadeOut => before.sounds(told.register as int, told.note as int)
                    && !after.sounds(told.register as int, told.note as int),
                _ => false,
            }
        },
{
    let changes = before.changes(task, after);
    let actions = before.actions(task, after);
    assert(actions == scheduled(changes));
    if let PlayerAction::Schedule(told) = action {
        match task.task_type {
            ScheduledTaskType::Note(_, _) => {
                lemma_note_changes_named(before, after, task.note as int, 128, told);
                if told.note != task.note {
                    lemma_other_pipes_stay(
                        before,
                        task,
                        after,
                        told.register as int,
                        told.note as int,
                    );
                }
            },
            _ => {
                lemma_register_changes_named(before, after, task.register as int, 61, told);
                if told.register != task.register {
                    lemma_other_pipes_stay(
                        before,
                        task,
                        after,
                        told.register as int,
                        told.note as int,
                    );
                }
            },
        }
        if changes.contains(told) {
            let i = choose|i: int| 0 <= i < changes.len() && changes[i] == told;
            assert(actions[i] == action);
        }
    }
    if actions.contains(action) {
        let i = choose|i: int| 0 <= i < actions.len() && actions[i] == action;
        assert(actions[i] == PlayerAction::Schedule(changes[i]));
        assert(changes.contains(changes[i]));
    }
}

/// A pipe that is told to start or to stop is started or stopped by the sampler, with
/// one message for its register and key. A task that asks for nothing has no effect.
pub proof fn law_pipes_reach_sampler(before: Player, task: ScheduledTask, after: Player)
    ensures
        task.task_type is Sample ==> before.actions(task, after).len() == 1 && before.actions(
            task,
            after,
        )[0] == PlayerAction::Stream(SampleMessage::NewNote((task.register, task.note))),
        task.task_type is FadeOut ==> before.actions(task, after).len() == 1 && before.actions(
            task,
            after,
        )[0] == PlayerAction::Stream(SampleMessage::Stop(task.register, task.note)),
        task.task_type is Nothing ==> before.actions(task, after).len() == 0,
{
}

/// The player takes every task for one of 61 keys or of 128 registers on one of four
/// manuals, and every task for a pipe.
pub proof fn law_valid_tasks(task: ScheduledTask)
    ensures
        task.valid() <==> match task.task_type {
            ScheduledTaskType::Note(manual, _) => manual < 4 && task.note < 61,
            ScheduledTaskType::Register(manual, _) => manual < 4 && task.register < 128,
            _ => true,
        },
{
}

} // verus!
