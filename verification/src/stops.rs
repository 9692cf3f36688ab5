//! The registers that are drawn on each manual, and the tasks that move them.
use crate::player::{lemma_tasks_in_both, Player, ScheduledTask, ScheduledTaskType};
use crate::{MANUAL_COUNT, REGISTER_COUNT};
use vstd::prelude::*;

verus! {

/// For each register, on which manuals it is drawn.
#[derive(Debug)]
pub struct StopStatus(pub Vec<[bool; 4]>);

impl View for StopStatus {
    type V = Seq<Seq<bool>>;

    open spec fn view(&self) -> Seq<Seq<bool>> {
        self.0@.map_values(|manuals: [bool; 4]| manuals@)
    }
}

/// No register is drawn on any manual.
pub open spec fn no_stops() -> Seq<Seq<bool>> {
    Seq::new(REGISTER_COUNT as nat, |register: int| Seq::new(4, |manual: int| false))
}

impl Default for StopStatus {
    fn default() -> (stops: StopStatus)
        ensures
            stops@ == no_stops(),
    {
        let mut stops: Vec<[bool; 4]> = Vec::new();
        while stops.len() < REGISTER_COUNT
            invariant
                stops@.len() <= REGISTER_COUNT,
                forall|register: int|
                    0 <= register < stops@.len() ==> (#[trigger] stops@[register])@ =~= Seq::new(
                        4,
                        |manual: int| false,
                    ),
            decreases REGISTER_COUNT - stops@.len(),
        {
            stops.push([false; 4]);
        }
        let stops = StopStatus(stops);
        assert(stops@ =~= no_stops());
        stops
    }
}

impl Clone for StopStatus {
    fn clone(&self) -> (copy: StopStatus)
        ensures
            copy@ == self@,
    {
        let mut stops: Vec<[bool; 4]> = Vec::new();
        while stops.len() < self.0.len()
            invariant
                stops@.len() <= self.0@.len(),
                forall|register: int|
                    0 <= register < stops@.len() ==> #[trigger] stops@[register]
                        == self.0@[register],
            decreases self.0@.len() - stops@.len(),
        {
            let manuals: [bool; 4] = self.0[stops.len()];
            stops.push(manuals);
        }
        let copy = StopStatus(stops);
        assert(copy@ =~= self@);
        copy
    }
}

/// The task that draws a register on a manual, or pushes it in.
pub open spec fn register_task(register: int, manual: int, value: bool) -> ScheduledTask {
    ScheduledTask {
        note: 0,
        register: (register % 256) as u8,
        task_type: ScheduledTaskType::Register(manual as u8, value),
    }
}

/// The tasks that take one register from `last` to `current` on the first
/// `count` manuals.
pub open spec fn manual_changes(
    last: Seq<bool>,
    current: Seq<bool>,
    register: int,
    count: int,
) -> Seq<ScheduledTask>
    decreases count,
{
    if count <= 0 {
        Seq::empty()
    } else {
        let earlier = manual_changes(last, current, register, count - 1);
        let manual = count - 1;
        if last[manual] == current[manual] {
            earlier
        } else {
            earlier.push(register_task(register, manual, current[manual]))
        }
    }
}

/// The tasks that take the first `count` registers from `last` to `current`.
pub open spec fn stop_changes(last: Seq<Seq<bool>>, current: Seq<Seq<bool>>, count: int) -> Seq<
    ScheduledTask,
>
    decreases count,
{
    if count <= 0 {
        Seq::empty()
    } else {
        stop_changes(last, current, count - 1) + manual_changes(
            last[count - 1],
            current[count - 1],
            count - 1,
            4,
        )
    }
}

/// How many registers two lists have in common.
pub open spec fn common_len(last: Seq<Seq<bool>>, current: Seq<Seq<bool>>) -> int {
    if last.len() < current.len() {
        last.len() as int
    } else {
        current.len() as int
    }
}

/// The tasks that take the registers from `last` to `current`.
pub fn change_stops(last: &StopStatus, current: &StopStatus) -> (tasks: Vec<ScheduledTask>)
    ensures
        tasks@ == stop_changes(last@, current@, common_len(last@, current@)),
{
    let mut tasks: Vec<ScheduledTask> = Vec::new();
    let mut register: usize = 0;
    while register < last.0.len() && register < current.0.len()
        invariant
            register <= common_len(last@, current@),
            tasks@ == stop_changes(last@, current@, register as int),
        decreases last.0@.len() - register,
    {
        let mut manual: usize = 0;
        assert(last@[register as int] == last.0@[register as int]@);
        assert(current@[register as int] == current.0@[register as int]@);
        let ghost earlier = tasks@;
        assert(tasks@ =~= earlier + manual_changes(
            last@[register as int],
            current@[register as int],
            register as int,
            0,
        ));
        while manual < 4
            invariant
                manual <= 4,
                register < last.0@.len(),
                register < current.0@.len(),
                last@[register as int] == last.0@[register as int]@,
                current@[register as int] == current.0@[register as int]@,
                tasks@ == earlier + manual_changes(
                    last@[register as int],
                    current@[register as int],
                    register as int,
                    manual as int,
                ),
            decreases 4 - manual,
        {
            let target = current.0[register][manual];
            if last.0[register][manual] != target {
                tasks.push(
                    ScheduledTask {
                        note: 0,
                        register: (register % 256) as u8,
                        task_type: ScheduledTaskType::Register(manual as u8, target),
                    },
                );
            }
            assert(tasks@ =~= earlier + manual_changes(
                last@[register as int],
                current@[register as int],
                register as int,
                manual + 1,
            ));
            manual = manual + 1;
        }
        register = register + 1;
    }
    tasks
}

/// The registers with one of them toggled on one manual.
pub open spec fn toggled(stops: Seq<Seq<bool>>, register: int, manual: int) -> Seq<Seq<bool>> {
    stops.update(register, stops[register].update(manual, !stops[register][manual]))
}

/// The registers after a task that moves one of them.
pub open spec fn applied(stops: Seq<Seq<bool>>, task: ScheduledTask) -> Seq<Seq<bool>> {
    match task.task_type {
        ScheduledTaskType::Register(manual, value) => stops.update(
            task.register as int,
            stops[task.register as int].update(manual as int, value),
        ),
        _ => stops,
    }
}

/// The registers after some tasks, one after the other.
pub open spec fn all_applied(stops: Seq<Seq<bool>>, tasks: Seq<ScheduledTask>) -> Seq<Seq<bool>>
    decreases tasks.len(),
{
    if tasks.len() == 0 {
        stops
    } else {
        applied(all_applied(stops, tasks.drop_last()), tasks.last())
    }
}

/// Some tasks, and then some more.
proof fn lemma_all_applied_adds(
    stops: Seq<Seq<bool>>,
    first: Seq<ScheduledTask>,
    second: Seq<ScheduledTask>,
)
    ensures
        all_applied(stops, first + second) == all_applied(all_applied(stops, first), second),
    decreases second.len(),
{
    if second.len() == 0 {
        assert(first + second =~= first);
    } else {
        lemma_all_applied_adds(stops, first, second.drop_last());
        assert((first + second).drop_last() =~= first + second.drop_last());
        assert((first + second).last() == second.last());
    }
}

/// The tasks of one register take it from `last` to `current`, manual by
/// manual.
proof fn lemma_manual_changes(
    stops: Seq<Seq<bool>>,
    last: Seq<bool>,
    current: Seq<bool>,
    register: int,
    count: int,
)
    requires
        0 <= register < stops.len(),
        register < 256,
        stops[register] == last,
        last.len() == 4,
        current.len() == 4,
        0 <= count <= 4,
    ensures
        all_applied(stops, manual_changes(last, current, register, count)) == stops.update(
            register,
            current.take(count) + last.skip(count),
        ),
    decreases count,
{
    if count == 0 {
        assert(current.take(0) + last.skip(0) =~= last);
        assert(stops.update(register, last) =~= stops);
    } else {
        let manual = count - 1;
        lemma_manual_changes(stops, last, current, register, manual);
        let before = current.take(manual) + last.skip(manual);
        let after = current.take(count) + last.skip(count);
        let earlier = manual_changes(last, current, register, manual);
        let tasks = manual_changes(last, current, register, count);
        if last[manual] == current[manual] {
            assert(before =~= after);
        } else {
            let task = register_task(register, manual, current[manual]);
            assert(tasks.drop_last() =~= earlier);
            assert(tasks.last() == task);
            assert(task.register == register);
            assert(before.update(manual, current[manual]) =~= after);
            assert(stops.update(register, before).update(register, after) =~= stops.update(
                register,
                after,
            ));
        }
    }
}

/// The tasks of one register more take it to `current` as well.
#[verifier::spinoff_prover]
proof fn lemma_next_register(last: Seq<Seq<bool>>, current: Seq<Seq<bool>>, register: int)
    requires
        last.len() == current.len(),
        last.len() <= 256,
        0 <= register < last.len(),
        last[register].len() == 4,
        current[register].len() == 4,
    ensures
        all_applied(
            current.take(register) + last.skip(register),
            manual_changes(last[register], current[register], register, 4),
        ) == current.take(register + 1) + last.skip(register + 1),
{
    let before = current.take(register) + last.skip(register);
    assert(before[register] == last[register]);
    lemma_manual_changes(before, last[register], current[register], register, 4);
    assert(current[register].take(4) + last[register].skip(4) =~= current[register]);
    assert(before.update(register, current[register]) =~= current.take(register + 1) + last.skip(
        register + 1,
    ));
}

/// The tasks of the first `count` registers take these to `current`, and leave
/// the others alone.
#[verifier::spinoff_prover]
proof fn lemma_stop_changes(last: Seq<Seq<bool>>, current: Seq<Seq<bool>>, count: int)
    requires
        last.len() == current.len(),
        last.len() <= 256,
        0 <= count <= last.len(),
        forall|r: int| 0 <= r < last.len() ==> (#[trigger] last[r]).len() == 4,
        forall|r: int| 0 <= r < current.len() ==> (#[trigger] current[r]).len() == 4,
    ensures
        all_applied(last, stop_changes(last, current, count)) == current.take(count) + last.skip(
            count,
        ),
    decreases count,
{
    if count == 0 {
        assert(current.take(0) + last.skip(0) =~= last);
    } else {
        let register = count - 1;
        lemma_stop_changes(last, current, register);
        lemma_all_applied_adds(
            last,
            stop_changes(last, current, register),
            manual_changes(last[register], current[register], register, 4),
        );
        lemma_next_register(last, current, register);
    }
}

/// The tasks of a change of bank take the registers from what they were to what
/// the bank says.
pub proof fn law_bank_tasks_reach_bank(last: Seq<Seq<bool>>, current: Seq<Seq<bool>>)
    requires
        last.len() == current.len(),
        last.len() <= 256,
        forall|r: int| 0 <= r < last.len() ==> (#[trigger] last[r]).len() == 4,
        forall|r: int| 0 <= r < current.len() ==> (#[trigger] current[r]).len() == 4,
    ensures
        all_applied(last, stop_changes(last, current, common_len(last, current))) == current,
{
    lemma_stop_changes(last, current, last.len() as int);
    assert(current.take(last.len() as int) + last.skip(last.len() as int) =~= current);
}

/// Where nothing differs there is nothing to do.
pub proof fn law_no_changes(stops: Seq<Seq<bool>>, count: int)
    ensures
        stop_changes(stops, stops, count) == Seq::<ScheduledTask>::empty(),
    decreases count,
{
    if count > 0 {
        law_no_changes(stops, count - 1);
        let row = stops[count - 1];
        assert(manual_changes(row, row, count - 1, 4) =~= Seq::<ScheduledTask>::empty()) by {
            reveal_with_fuel(manual_changes, 5);
        }
        assert(stop_changes(stops, stops, count) =~= Seq::<ScheduledTask>::empty());
    }
}

/// The player has the same registers drawn as the console shows.
pub open spec fn in_step(player: Player, stops: Seq<Seq<bool>>) -> bool {
    forall|manual: int, register: int|
        0 <= manual <= MANUAL_COUNT && 0 <= register < REGISTER_COUNT ==> #[trigger] player.drawn(
            manual,
            register,
        ) == stops[register][manual]
}

/// The players before and after each task of a list: each moves the register
/// that the task names.
pub open spec fn follows(players: Seq<Player>, tasks: Seq<ScheduledTask>) -> bool {
    &&& players.len() == tasks.len() + 1
    &&& forall|i: int|
        0 <= i < tasks.len() ==> (#[trigger] tasks[i].task_type matches ScheduledTaskType::Register(
            manual,
            value,
        ) ==> players[i].register_moved(
            players[i + 1],
            manual as int,
            tasks[i].register as int,
            value,
        ))
    &&& forall|i: int|
        0 <= i < tasks.len() ==> #[trigger] tasks[i].task_type is Register
}

/// A player that carries out tasks that move registers stays in step with
/// registers that move as the tasks say.
pub proof fn law_player_follows_tasks(
    players: Seq<Player>,
    stops: Seq<Seq<bool>>,
    tasks: Seq<ScheduledTask>,
)
    requires
        in_step(players[0], stops),
        follows(players, tasks),
        stops.len() >= REGISTER_COUNT,
        forall|r: int| 0 <= r < stops.len() ==> (#[trigger] stops[r]).len() == 4,
        forall|i: int|
            0 <= i < tasks.len() ==> (#[trigger] tasks[i]).valid() && tasks[i].register
                < stops.len(),
    ensures
        in_step(players.last(), all_applied(stops, tasks)),
        all_applied(stops, tasks).len() == stops.len(),
        forall|r: int|
            0 <= r < stops.len() ==> (#[trigger] all_applied(stops, tasks)[r]).len() == 4,
    decreases tasks.len(),
{
    if tasks.len() > 0 {
        let n = tasks.len() - 1;
        let shorter = players.drop_last();
        let earlier = tasks.drop_last();
        assert forall|i: int| 0 <= i < earlier.len() implies (
        #[trigger] earlier[i].task_type matches ScheduledTaskType::Register(manual, value)
            ==> shorter[i].register_moved(
            shorter[i + 1],
            manual as int,
            earlier[i].register as int,
            value,
        )) by {
            assert(earlier[i] == tasks[i]);
            assert(tasks[i].task_type is Register);
        }
        assert forall|i: int| 0 <= i < earlier.len() implies #[trigger] earlier[i].task_type
            is Register by {
            assert(earlier[i] == tasks[i]);
            assert(tasks[i].task_type is Register);
        }
        assert forall|i: int| 0 <= i < earlier.len() implies (#[trigger] earlier[i]).valid()
            && earlier[i].register < stops.len() by {
            assert(earlier[i] == tasks[i]);
        }
        law_player_follows_tasks(shorter, stops, earlier);
        let before = all_applied(stops, earlier);
        let task = tasks[n];
        assert(task.valid());
        assert(tasks[n].task_type is Register);
        assert(shorter.last() == players[n]);
        assert(before[task.register as int].len() == 4);
    }
}

/// After a change of bank, the player has the registers of the bank drawn, if
/// it had those drawn that the console showed.
pub proof fn law_player_follows_bank(
    players: Seq<Player>,
    last: Seq<Seq<bool>>,
    current: Seq<Seq<bool>>,
)
    requires
        last.len() == REGISTER_COUNT,
        current.len() == REGISTER_COUNT,
        forall|r: int| 0 <= r < last.len() ==> (#[trigger] last[r]).len() == 4,
        forall|r: int| 0 <= r < current.len() ==> (#[trigger] current[r]).len() == 4,
        in_step(players[0], last),
        follows(players, stop_changes(last, current, REGISTER_COUNT as int)),
    ensures
        in_step(players.last(), current),
{
    lemma_stop_changes_valid(last, current, REGISTER_COUNT as int);
    law_player_follows_tasks(
        players,
        last,
        stop_changes(last, current, REGISTER_COUNT as int),
    );
    law_bank_tasks_reach_bank(last, current);
}

/// The tasks of a change of bank are such that the player can handle them.
proof fn lemma_stop_changes_valid(last: Seq<Seq<bool>>, current: Seq<Seq<bool>>, count: int)
    requires
        0 <= count <= REGISTER_COUNT,
    ensures
        forall|i: int|
            0 <= i < stop_changes(last, current, count).len() ==> {
                let task = #[trigger] stop_changes(last, current, count)[i];
                task.valid() && task.register < REGISTER_COUNT
            },
    decreases count,
{
    if count > 0 {
        lemma_stop_changes_valid(last, current, count - 1);
        let register = count - 1;
        let earlier = stop_changes(last, current, register);
        let tail = manual_changes(last[register], current[register], register, 4);
        let all = stop_changes(last, current, count);
        assert(forall|i: int|
            0 <= i < tail.len() ==> (#[trigger] tail[i]).valid() && tail[i].register
                < REGISTER_COUNT) by {
            reveal_with_fuel(manual_changes, 5);
        }
        assert forall|i: int| 0 <= i < all.len() implies (#[trigger] all[i]).valid()
            && all[i].register < REGISTER_COUNT by {
            if i < earlier.len() {
                assert(all[i] == earlier[i]);
            } else {
                assert(all[i] == tail[i - earlier.len()]);
            }
        }
    }
}

/// After a toggle, the player has the registers drawn that the console shows.
pub proof fn law_player_follows_toggle(
    before: Player,
    after: Player,
    stops: Seq<Seq<bool>>,
    register: int,
    manual: int,
)
    requires
        in_step(before, stops),
        stops.len() >= REGISTER_COUNT,
        forall|r: int| 0 <= r < stops.len() ==> (#[trigger] stops[r]).len() == 4,
        0 <= register < REGISTER_COUNT,
        0 <= manual <= MANUAL_COUNT,
        before.register_moved(
            after,
            manual,
            register,
            toggled(stops, register, manual)[register][manual],
        ),
    ensures
        in_step(after, toggled(stops, register, manual)),
{
    assert(stops[register].len() == 4);
}

/// No register is drawn: there are 128 of them, with four manuals each.
pub proof fn law_nothing_drawn(register: int, manual: int)
    requires
        0 <= register < 128,
        0 <= manual < 4,
    ensures
        no_stops().len() == 128,
        no_stops()[register].len() == 4,
        !no_stops()[register][manual],
{
}

/// A toggle turns one register on one manual round, leaves all others alone, and
/// a second toggle undoes it.
pub proof fn law_toggle(stops: Seq<Seq<bool>>, register: int, manual: int)
    requires
        0 <= register < stops.len(),
        0 <= manual < stops[register].len(),
    ensures
        toggled(stops, register, manual).len() == stops.len(),
        toggled(stops, register, manual)[register][manual] == !stops[register][manual],
        forall|r: int|
            0 <= r < stops.len() && r != register ==> #[trigger] toggled(stops, register, manual)[r]
                == stops[r],
        forall|m: int|
            0 <= m < stops[register].len() && m != manual ==> #[trigger] toggled(
                stops,
                register,
                manual,
            )[register][m] == stops[register][m],
        toggled(toggled(stops, register, manual), register, manual) == stops,
{
    let back = toggled(toggled(stops, register, manual), register, manual);
    assert(back[register] =~= stops[register]);
    assert(back =~= stops);
}

/// What is in a list that got one element more.
proof fn lemma_contains_push(tasks: Seq<ScheduledTask>, last: ScheduledTask, task: ScheduledTask)
    ensures
        tasks.push(last).contains(task) <==> tasks.contains(task) || last == task,
{
    let all = tasks.push(last);
    if tasks.contains(task) {
        let i = choose|i: int| 0 <= i < tasks.len() && tasks[i] == task;
        assert(all[i] == task);
    }
    assert(all[tasks.len() as int] == last);
    if all.contains(task) && last != task {
        let i = choose|i: int| 0 <= i < all.len() && all[i] == task;
        assert(tasks[i] == task);
    }
}

/// The tasks of one register name the manuals on which it differs.
proof fn lemma_manual_changes_named(
    last: Seq<bool>,
    current: Seq<bool>,
    register: int,
    count: int,
    task: ScheduledTask,
)
    requires
        0 <= register,
        0 <= count <= 4,
    ensures
        manual_changes(last, current, register, count).contains(task) <==> {
            &&& task.note == 0
            &&& task.register == register % 256
            &&& task.task_type matches ScheduledTaskType::Register(manual, value)
            &&& manual < count
            &&& last[manual as int] != value
            &&& current[manual as int] == value
        },
    decreases count,
{
    if count > 0 {
        let manual = count - 1;
        let earlier = manual_changes(last, current, register, manual);
        lemma_manual_changes_named(last, current, register, manual, task);
        if last[manual] != current[manual] {
            lemma_contains_push(
                earlier,
                register_task(register, manual, current[manual]),
                task,
            );
        }
    }
}

/// The tasks of a change are the differences and nothing else: a task is among
/// those of the first `count` registers exactly when it sets a register on a manual
/// to what it is to be, and it was not so before.
pub proof fn law_tasks_are_differences(
    last: Seq<Seq<bool>>,
    current: Seq<Seq<bool>>,
    count: int,
    task: ScheduledTask,
)
    requires
        0 <= count <= 256,
    ensures
        stop_changes(last, current, count).contains(task) <==> {
            &&& task.note == 0
            &&& task.register < count
            &&& task.task_type matches ScheduledTaskType::Register(manual, value)
            &&& manual < 4
            &&& last[task.register as int][manual as int] != value
            &&& current[task.register as int][manual as int] == value
        },
    decreases count,
{
    if count > 0 {
        let register = count - 1;
        law_tasks_are_differences(last, current, register, task);
        lemma_manual_changes_named(last[register], current[register], register, 4, task);
        lemma_tasks_in_both(
            stop_changes(last, current, register),
            manual_changes(last[register], current[register], register, 4),
            task,
        );
    }
}

/// The manual that a task for a register names.
pub open spec fn task_place(task: ScheduledTask) -> int {
    4 * task.register + task.task_type->Register_0
}

/// The tasks of one register come in the order of the manuals.
proof fn lemma_manual_changes_in_order(
    last: Seq<bool>,
    current: Seq<bool>,
    register: int,
    count: int,
)
    requires
        0 <= register < 256,
        0 <= count <= 4,
    ensures
        ({
            let tasks = manual_changes(last, current, register, count);
            &&& forall|i: int|
                0 <= i < tasks.len() ==> 4 * register <= task_place(#[trigger] tasks[i]) < 4
                    * register + count
            &&& forall|i: int, j: int|
                0 <= i < j < tasks.len() ==> task_place(#[trigger] tasks[i]) < task_place(
                    #[trigger] tasks[j],
                )
        }),
    decreases count,
{
    if count > 0 {
        let earlier = manual_changes(last, current, register, count - 1);
        let tasks = manual_changes(last, current, register, count);
        lemma_manual_changes_in_order(last, current, register, count - 1);
        assert forall|i: int| 0 <= i < tasks.len() implies 4 * register <= task_place(
            #[trigger] tasks[i],
        ) < 4 * register + count by {
            if i < earlier.len() {
                assert(tasks[i] == earlier[i]);
            }
        }
        assert forall|i: int, j: int| 0 <= i < j < tasks.len() implies task_place(
            #[trigger] tasks[i],
        ) < task_place(#[trigger] tasks[j]) by {
            assert(tasks[i] == earlier[i]);
            if j < earlier.len() {
                assert(tasks[j] == earlier[j]);
            }
        }
    }
}

/// The tasks of a change come in the order of the registers, and for each register
/// in that of the manuals; none comes twice.
pub proof fn law_tasks_in_order(last: Seq<Seq<bool>>, current: Seq<Seq<bool>>, count: int)
    requires
        0 <= count <= 256,
    ensures
        ({
            let tasks = stop_changes(last, current, count);
            &&& forall|i: int|
                0 <= i < tasks.len() ==> task_place(#[trigger] tasks[i]) < 4 * count
            &&& forall|i: int, j: int|
                0 <= i < j < tasks.len() ==> task_place(#[trigger] tasks[i]) < task_place(
                    #[trigger] tasks[j],
                )
        }),
    decreases count,
{
    if count > 0 {
        let register = count - 1;
        let earlier = stop_changes(last, current, register);
        let tail = manual_changes(last[register], current[register], register, 4);
        let tasks = stop_changes(last, current, count);
        law_tasks_in_order(last, current, register);
        lemma_manual_changes_in_order(last[register], current[register], register, 4);
        assert forall|i: int| 0 <= i < tasks.len() implies task_place(#[trigger] tasks[i]) < 4
            * count by {
            if i < earlier.len() {
                assert(tasks[i] == earlier[i]);
            } else {
                assert(tasks[i] == tail[i - earlier.len()]);
            }
        }
        assert forall|i: int, j: int| 0 <= i < j < tasks.len() implies task_place(
            #[trigger] tasks[i],
        ) < task_place(#[trigger] tasks[j]) by {
            if j < earlier.len() {
                assert(tasks[i] == earlier[i] && tasks[j] == earlier[j]);
            } else if i < earlier.len() {
                assert(tasks[i] == earlier[i] && tasks[j] == tail[j - earlier.len()]);
            } else {
                assert(tasks[i] == tail[i - earlier.len()] && tasks[j] == tail[j - earlier.len()]);
            }
        }
    }
}

/// The tasks of a change come register by register: those of one register more stand
/// behind the others, and are its differences. A register from 256 on has the number
/// that it leaves divided by 256.
pub proof fn law_tasks_come_by_register(
    last: Seq<Seq<bool>>,
    current: Seq<Seq<bool>>,
    register: int,
    task: ScheduledTask,
)
    requires
        0 <= register,
    ensures
        ({
            let earlier = stop_changes(last, current, register);
            let all = stop_changes(last, current, register + 1);
            &&& stop_changes(last, current, 0).len() == 0
            &&& all.len() >= earlier.len()
            &&& all.take(earlier.len() as int) == earlier
            &&& all.skip(earlier.len() as int).contains(task) <==> {
                &&& task.note == 0
                &&& task.register == register % 256
                &&& task.task_type matches ScheduledTaskType::Register(manual, value)
                &&& manual < 4
                &&& last[register][manual as int] != value
                &&& current[register][manual as int] == value
            }
        }),
{
    let earlier = stop_changes(last, current, register);
    let tail = manual_changes(last[register], current[register], register, 4);
    let all = stop_changes(last, current, register + 1);
    assert(all.take(earlier.len() as int) =~= earlier);
    assert(all.skip(earlier.len() as int) =~= tail);
    lemma_manual_changes_named(last[register], current[register], register, 4, task);
}

/// As many registers are compared as both states have.
pub proof fn law_common_registers(last: Seq<Seq<bool>>, current: Seq<Seq<bool>>)
    ensures
        common_len(last, current) <= last.len(),
        common_len(last, current) <= current.len(),
        common_len(last, current) == last.len() || common_len(last, current) == current.len(),
{
}

/// A task that moves a register sets it on one manual and leaves all others alone.
pub proof fn law_applied_task(stops: Seq<Seq<bool>>, task: ScheduledTask, register: int)
    requires
        0 <= register < stops.len(),
        task.task_type is Register ==> task.register < stops.len(),
    ensures
        task.task_type matches ScheduledTaskType::Register(manual, value) ==> {
            &&& register != task.register ==> applied(stops, task)[register] == stops[register]
            &&& register == task.register && manual < stops[register].len() ==> {
                &&& applied(stops, task)[register].len() == stops[register].len()
                &&& applied(stops, task)[register][manual as int] == value
                &&& forall|m: int|
                    0 <= m < stops[register].len() && m != manual ==> #[trigger] applied(
                        stops,
                        task,
                    )[register][m] == stops[register][m]
            }
        },
        applied(stops, task).len() == stops.len(),
        all_applied(stops, Seq::<ScheduledTask>::empty()) == stops,
        all_applied(stops, seq![task]) == applied(stops, task),
{
    assert(seq![task].drop_last() =~= Seq::<ScheduledTask>::empty());
    assert(seq![task].last() == task);
    assert(all_applied(stops, seq![task].drop_last()) == stops);
}

} // verus!
