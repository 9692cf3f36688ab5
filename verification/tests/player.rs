use organ::player::{Player, PlayerAction, ScheduledTask, ScheduledTaskType};
use organ::sampler::SampleMessage;

fn sample(register: u8, note: u8) -> ScheduledTask {
    ScheduledTask { note, register, task_type: ScheduledTaskType::Sample }
}

fn fade_out(register: u8, note: u8) -> ScheduledTask {
    ScheduledTask { note, register, task_type: ScheduledTaskType::FadeOut }
}

#[test]
fn key_without_register_is_silent() {
    let mut player = Player::new();
    assert_eq!(player.set_note(0, 10, true), vec![]);
    assert_eq!(player.set_note(0, 10, false), vec![]);
}

#[test]
fn register_then_key_sounds() {
    let mut player = Player::new();
    assert_eq!(player.set_register(0, 5, true), vec![]);
    assert_eq!(player.set_register(0, 2, true), vec![]);
    assert_eq!(player.set_note(0, 10, true), vec![sample(2, 10), sample(5, 10)]);
    assert_eq!(player.set_note(0, 10, true), vec![]);
    assert_eq!(player.set_note(0, 10, false), vec![fade_out(2, 10), fade_out(5, 10)]);
    assert_eq!(player.set_note(0, 10, false), vec![]);
}

#[test]
fn key_then_register_sounds() {
    let mut player = Player::new();
    player.set_note(3, 0, true);
    player.set_note(3, 60, true);
    assert_eq!(player.set_register(3, 127, true), vec![sample(127, 0), sample(127, 60)]);
    assert_eq!(player.set_register(3, 127, false), vec![fade_out(127, 0), fade_out(127, 60)]);
}

#[test]
fn other_manual_keeps_pipe_open() {
    let mut player = Player::new();
    player.set_register(0, 7, true);
    player.set_register(1, 7, true);
    assert_eq!(player.set_note(0, 30, true), vec![sample(7, 30)]);
    assert_eq!(player.set_note(1, 30, true), vec![]);
    assert_eq!(player.set_note(0, 30, false), vec![]);
    assert_eq!(player.set_register(0, 7, false), vec![]);
    assert_eq!(player.set_note(1, 30, false), vec![fade_out(7, 30)]);
}

#[test]
fn manuals_are_separate() {
    let mut player = Player::new();
    player.set_register(0, 7, true);
    assert_eq!(player.set_note(1, 30, true), vec![]);
    assert_eq!(player.set_register(1, 8, true), vec![sample(8, 30)]);
}

#[test]
fn release_undoes_press() {
    let mut player = Player::new();
    player.set_register(2, 0, true);
    player.set_register(2, 64, true);
    let there = player.set_note(2, 1, true);
    let back = player.set_note(2, 1, false);
    assert_eq!(there, vec![sample(0, 1), sample(64, 1)]);
    assert_eq!(back, vec![fade_out(0, 1), fade_out(64, 1)]);
    assert_eq!(player.set_note(2, 1, true), there);
}

#[test]
fn tasks_become_actions() {
    let mut player = Player::new();
    let draw = ScheduledTask {
        note: 0,
        register: 9,
        task_type: ScheduledTaskType::Register(1, true),
    };
    let press = ScheduledTask {
        note: 4,
        register: 0,
        task_type: ScheduledTaskType::Note(1, true),
    };
    assert_eq!(player.handle(draw), vec![]);
    assert_eq!(player.handle(press), vec![PlayerAction::Schedule(sample(9, 4))]);
    assert_eq!(
        player.handle(sample(9, 4)),
        vec![PlayerAction::Stream(SampleMessage::NewNote((9, 4)))]
    );
    assert_eq!(
        player.handle(fade_out(9, 4)),
        vec![PlayerAction::Stream(SampleMessage::Stop(9, 4))]
    );
    assert_eq!(player.handle(ScheduledTask::default()), vec![]);
}

#[test]
fn default_task_does_nothing() {
    assert_eq!(ScheduledTask::default().task_type, ScheduledTaskType::Nothing);
    assert!(ScheduledTask::default().is_valid());
}

#[test]
fn task_limits() {
    let note = |note: u8, manual: u8| {
        ScheduledTask { note, register: 255, task_type: ScheduledTaskType::Note(manual, true) }
            .is_valid()
    };
    let register = |register: u8, manual: u8| {
        ScheduledTask {
            note: 255,
            register,
            task_type: ScheduledTaskType::Register(manual, true),
        }
        .is_valid()
    };
    assert!(note(60, 3));
    assert!(!note(61, 3));
    assert!(!note(60, 4));
    assert!(register(127, 3));
    assert!(!register(128, 3));
    assert!(!register(127, 4));
    assert!(sample(255, 255).is_valid());
}

#[test]
fn order_of_key_and_register_does_not_matter() {
    let mut a = Player::new();
    let mut b = Player::new();
    a.set_note(0, 5, true);
    a.set_register(0, 6, true);
    b.set_register(0, 6, true);
    b.set_note(0, 5, true);
    assert_eq!(a.set_register(0, 6, false), vec![fade_out(6, 5)]);
    assert_eq!(b.set_register(0, 6, false), vec![fade_out(6, 5)]);
}

#[test]
fn tasks_tell_which_pipes_sound() {
    let mut player = Player::new();
    let mut keys = [[false; 61]; 4];
    let mut stops = [[false; 128]; 4];
    let mut sounding = std::collections::HashSet::new();
    let mut seed: u32 = 7;
    for _ in 0..400 {
        seed = seed.wrapping_mul(1664525).wrapping_add(1013904223);
        let manual = (seed >> 8 & 3) as u8;
        let value = seed >> 11 & 1 == 1;
        let index = (seed >> 16 & 7) as u8;
        let tasks = if seed >> 20 & 1 == 1 {
            keys[manual as usize][index as usize] = value;
            player.set_note(manual, index, value)
        } else {
            stops[manual as usize][index as usize] = value;
            player.set_register(manual, index, value)
        };
        for task in tasks {
            match task.task_type {
                ScheduledTaskType::Sample => {
                    assert!(sounding.insert((task.register, task.note)));
                }
                ScheduledTaskType::FadeOut => {
                    assert!(sounding.remove(&(task.register, task.note)));
                }
                _ => panic!("not a change"),
            }
        }
        for register in 0..128u8 {
            for note in 0..61u8 {
                let open = (0..4).any(|manual: usize| {
                    keys[manual][note as usize] && stops[manual][register as usize]
                });
                assert_eq!(sounding.contains(&(register, note)), open);
            }
        }
    }
    assert!(!sounding.is_empty());
}

#[test]
fn push_undoes_draw() {
    let mut player = Player::new();
    player.set_note(1, 3, true);
    player.set_note(1, 40, true);
    let there = player.set_register(1, 70, true);
    let back = player.set_register(1, 70, false);
    assert_eq!(there, vec![sample(70, 3), sample(70, 40)]);
    assert_eq!(back, vec![fade_out(70, 3), fade_out(70, 40)]);
}
