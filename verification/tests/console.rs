use organ::banks::{advance, bank_place, Settings};
use organ::console::{Console, Message, Reaction, Request};
use organ::hid::{
    decode_report, forget_path, hello_report, is_known, is_panel, panel_report, Calibration,
    PanelLink,
};
use organ::player::{Player, PlayerAction, ScheduledTask, ScheduledTaskType};
use organ::ports::{same_path, PortTable};
use organ::stops::{change_stops, StopStatus};

fn register_task(register: u8, manual: u8, value: bool) -> ScheduledTask {
    ScheduledTask { note: 0, register, task_type: ScheduledTaskType::Register(manual, value) }
}

fn console() -> Console {
    Console::new(Settings::default())
}

fn only_leds(reaction: &Reaction) -> bool {
    reaction.messages.len() == 1
        && matches!(reaction.messages[0], Message::UpdateLEDs)
        && reaction.reports.is_empty()
        && reaction.request.is_none()
}

#[test]
fn default_settings() {
    let settings = Settings::default();
    assert_eq!(settings.all_stops.len(), 64);
    assert!(settings.hw_order.is_none());
    for stops in &settings.all_stops {
        assert_eq!(stops.0, vec![[false; 4]; 128]);
    }
    assert_eq!(StopStatus::default().0, vec![[false; 4]; 128]);
}

#[test]
fn toggle_draws_and_pushes() {
    let mut console = console();
    let reaction = console.handle(Message::ToggleRegister(5, 2));
    assert_eq!(reaction.tasks, vec![register_task(5, 2, true)]);
    assert!(only_leds(&reaction));
    assert_eq!(console.current_stops.0[5], [false, false, true, false]);
    let reaction = console.handle(Message::ToggleRegister(5, 2));
    assert_eq!(reaction.tasks, vec![register_task(5, 2, false)]);
    assert_eq!(console.current_stops.0, vec![[false; 4]; 128]);
}

#[test]
fn panel_shows_its_registers() {
    let mut stops = StopStatus::default();
    stops.0[8 * 3] = [true, false, false, true];
    stops.0[8 * 3 + 1] = [true, false, false, false];
    stops.0[8 * 3 + 7] = [false, true, false, true];
    stops.0[8 * 4] = [true; 4];
    let report = panel_report(&stops, 1, 2, 3);
    let mut expected = [0u8; 32];
    expected[..5].copy_from_slice(&[4, 0b11, 0b1000_0000, 0, 0b1000_0001]);
    assert_eq!(report, expected);
}

#[test]
fn bank_panel_shows_the_bank() {
    let report = panel_report(&StopStatus::default(), 5, 6, 16);
    let mut expected = [0u8; 32];
    expected[..3].copy_from_slice(&[1, 5, 6]);
    assert_eq!(report, expected);
    assert_eq!(panel_report(&StopStatus::default(), 5, 6, 255), expected);
}

#[test]
fn panels_come_and_go() {
    let mut console = console();
    assert!(only_leds(&console.handle(Message::AddRegisterHid(70, 0))));
    assert!(only_leds(&console.handle(Message::AddRegisterHid(71, 16))));
    assert!(only_leds(&console.handle(Message::AddRegisterHid(72, 15))));
    console.handle(Message::ToggleRegister(120, 0));
    let reaction = console.handle(Message::UpdateLEDs);
    assert_eq!(reaction.reports.len(), 3);
    assert_eq!(reaction.reports[0].0, 70);
    assert_eq!(reaction.reports[0].1[..2], [1, 0]);
    assert_eq!(reaction.reports[1].1[..3], [1, 0, 0]);
    assert_eq!(reaction.reports[2].1[..2], [16, 1]);
    assert!(reaction.messages.is_empty() && reaction.tasks.is_empty());
    let reaction = console.handle(Message::CloseHid(71, "path".to_owned()));
    assert!(matches!(reaction.request, Some(Request::Forget(path)) if path == "path"));
    assert_eq!(console.panels, vec![(70, 0), (72, 15)]);
}

#[test]
fn bank_gives_back_registers() {
    let mut console = console();
    console.handle(Message::ToggleRegister(0, 0));
    console.handle(Message::ToggleRegister(127, 3));
    let stored = console.current_stops.0.clone();
    let reaction = console.handle(Message::SetBank(2, 3));
    assert_eq!(reaction.messages.len(), 2);
    assert!(matches!(reaction.messages[0], Message::SaveSettings));
    assert!(matches!(reaction.messages[1], Message::ChangeBank(2, 3)));
    let reaction = console.handle(Message::ChangeBank(2, 3));
    assert_eq!(reaction.tasks, vec![]);
    assert!(only_leds(&reaction));
    assert_eq!((console.current_letter, console.current_number), (2, 3));
    let reaction = console.handle(Message::ChangeBank(2, 4));
    assert_eq!(reaction.tasks, vec![register_task(0, 0, false), register_task(127, 3, false)]);
    let reaction = console.handle(Message::ChangeBank(2, 3));
    assert_eq!(reaction.tasks, vec![register_task(0, 0, true), register_task(127, 3, true)]);
    assert_eq!(console.current_stops.0, stored);
    assert_eq!(console.settings.all_stops[bank_place(2, 4)].0, vec![[false; 4]; 128]);
}

#[test]
fn cleared_registers_make_no_tasks() {
    let mut console = console();
    console.handle(Message::ToggleRegister(1, 1));
    let reaction = console.handle(Message::ClearRegisters);
    assert_eq!(reaction.tasks, vec![]);
    assert!(only_leds(&reaction));
    assert_eq!(console.current_stops.0, vec![[false; 4]; 128]);
}

#[test]
fn changes_in_order_of_register_and_manual() {
    let last = StopStatus(vec![[true, false, false, false], [false; 4], [true; 4]]);
    let current = StopStatus(vec![[false, true, false, false], [false; 4]]);
    assert_eq!(
        change_stops(&last, &current),
        vec![register_task(0, 0, false), register_task(0, 1, true)]
    );
}

#[test]
fn tasks_reach_the_bank() {
    let mut last = StopStatus::default();
    let mut current = StopStatus::default();
    for register in 0..128 {
        last.0[register][register % 4] = true;
        current.0[register][register / 7 % 4] = true;
    }
    let mut stops = last.clone();
    for task in change_stops(&last, &current) {
        if let ScheduledTaskType::Register(manual, value) = task.task_type {
            stops.0[task.register as usize][manual as usize] = value;
        }
    }
    assert_eq!(stops.0, current.0);
}

#[test]
fn register_numbers_wrap() {
    let last = StopStatus(vec![[false; 4]; 300]);
    let mut current = last.clone();
    current.0[258][1] = true;
    assert_eq!(change_stops(&last, &current), vec![register_task(2, 1, true)]);
}

#[test]
fn advance_goes_round() {
    assert_eq!(advance(0, 0, 1), (0, 1));
    assert_eq!(advance(0, 7, 1), (1, 0));
    assert_eq!(advance(7, 7, 1), (0, 0));
    assert_eq!(advance(0, 0, -1), (7, 7));
    assert_eq!(advance(3, 4, 64), (3, 4));
    assert_eq!(advance(0, 0, -64), (0, 0));
    assert_eq!(advance(5, 5, 127), (5, 4));
    assert_eq!(advance(7, 7, -127), (0, 0));
    assert_eq!(advance(5, 4, -127), (254, 253));
    assert_eq!(advance(0, 0, -127), (249, 249));
    assert_eq!(advance(0, 0, -128), (0, 0));
    assert_eq!(advance(0, 0, -72), (255, 0));
}

#[test]
fn advance_posts_the_bank() {
    let mut console = console();
    console.handle(Message::ChangeBank(7, 6));
    let reaction = console.handle(Message::AdvanceBank(3, false));
    assert!(matches!(reaction.messages[0], Message::ChangeBank(0, 1)));
    let reaction = console.handle(Message::AdvanceBank(-1, true));
    assert!(matches!(reaction.messages[0], Message::SetBank(7, 5)));
    assert_eq!((console.current_letter, console.current_number), (7, 6));
}

#[test]
fn message_limits() {
    let mut console = console();
    assert!(console.is_accepted(&Message::ToggleRegister(127, 3)));
    assert!(!console.is_accepted(&Message::ToggleRegister(128, 3)));
    assert!(!console.is_accepted(&Message::ToggleRegister(127, 4)));
    assert!(console.is_accepted(&Message::ChangeBank(7, 7)));
    assert!(console.is_accepted(&Message::ChangeBank(0, 63)));
    assert!(!console.is_accepted(&Message::ChangeBank(8, 0)));
    assert!(!console.is_accepted(&Message::SetBank(7, 8)));
    assert!(console.is_accepted(&Message::UpdateLEDs));
    console.handle(Message::AddRegisterHid(1, 3));
    assert!(console.is_accepted(&Message::UpdateLEDs));
    console.current_stops.0.truncate(31);
    assert!(!console.is_accepted(&Message::UpdateLEDs));
}

#[test]
fn reports_are_messages() {
    let decode = |bytes: [u8; 4]| {
        let mut report = [0u8; 32];
        report[..4].copy_from_slice(&bytes);
        decode_report(&report)
    };
    assert!(matches!(decode([1, 9, 2, 40]), Some(Message::ToggleRegister(40, 2))));
    assert!(matches!(decode([2, 9, 0, 0]), Some(Message::ClearRegisters)));
    assert!(matches!(decode([3, 9, 5, 0]), Some(Message::AdvanceBank(5, false))));
    assert!(matches!(decode([3, 9, 255, 2]), Some(Message::AdvanceBank(-1, true))));
    assert!(matches!(decode([3, 9, 128, 1]), Some(Message::AdvanceBank(-128, true))));
    assert!(matches!(decode([4, 9, 3, 7]), Some(Message::ChangeBank(3, 7))));
    assert!(matches!(decode([4, 9, 3, 8]), Some(Message::ClearRegisters)));
    assert!(matches!(decode([5, 9, 0, 0]), Some(Message::StartCalibration)));
    assert!(matches!(decode([6, 9, 3, 8]), Some(Message::SetBank(3, 8))));
    assert!(decode([0, 9, 3, 8]).is_none());
    assert!(decode([7, 9, 3, 8]).is_none());
}

#[test]
fn first_report_announces_the_panel() {
    let mut link = PanelLink::new(12);
    let mut report = [0u8; 32];
    report[..2].copy_from_slice(&[2, 4]);
    let messages = link.receive(&report);
    assert_eq!(messages.len(), 2);
    assert!(matches!(messages[0], Message::AddRegisterHid(12, 4)));
    assert!(matches!(messages[1], Message::ClearRegisters));
    report[..2].copy_from_slice(&[5, 6]);
    let messages = link.receive(&report);
    assert_eq!(messages.len(), 1);
    assert!(matches!(messages[0], Message::StartCalibration));
    assert_eq!(link.registered, Some(4));
}

#[test]
fn panel_paths() {
    assert!(is_panel(0xFF60, 0x61));
    assert!(!is_panel(0xFF60, 0x60));
    assert!(!is_panel(0xFF61, 0x61));
    assert_eq!(hello_report(), [0xFF; 32]);
    let mut paths = vec!["a".to_owned(), "b".to_owned(), "a".to_owned()];
    assert!(is_known(&paths, &"b".to_owned()));
    assert!(!is_known(&paths, &"c".to_owned()));
    forget_path(&mut paths, &"a".to_owned());
    assert_eq!(paths, vec!["b".to_owned()]);
}

#[test]
fn calibration_asks_for_each_manual() {
    let mut calibration = Calibration::new();
    let mut asked = Vec::new();
    while !calibration.is_done() {
        let report = calibration.report();
        assert_eq!(report[0], 0xFE);
        assert_eq!(report[2..], [0; 30]);
        asked.push(report[1]);
        calibration.record(20 + asked.len() as i32);
    }
    assert_eq!(asked, vec![0, 1, 2, 3, 3]);
    assert_eq!(calibration.report()[..3], [0xFE, 0xFF, 0]);
    assert_eq!(calibration.order, vec![21, 22, 23, 24, 25]);
}

#[test]
fn keyboards_are_connected_when_all_are_there() {
    let mut console = console();
    for client in 1..6 {
        let reaction = console.handle(Message::NewPwConnection(client, vec![client as u8]));
        assert!(reaction.messages.is_empty());
    }
    let reaction = console.handle(Message::StartCalibration);
    match reaction.request {
        Some(Request::Calibrate(mut clients)) => {
            clients.sort();
            assert_eq!(clients, vec![1, 2, 3, 4, 5]);
        }
        _ => panic!("no calibration"),
    }
    assert!(console.is_connected(5));
    assert!(!console.is_connected(6));
    let reaction = console.calibrated(vec![5, 4, 3, 2, 1]);
    assert!(matches!(&reaction.messages[0],
        Message::ConnectManuals(order) if *order == vec![5, 4, 3, 2, 1]));
    assert!(matches!(reaction.messages[1], Message::SaveSettings));
    assert_eq!(
        console.settings.hw_order,
        Some(vec![vec![5], vec![4], vec![3], vec![2], vec![1]])
    );
    let reaction = console.handle(Message::NewPwConnection(3, vec![3]));
    assert!(matches!(&reaction.messages[0],
        Message::ConnectManuals(order) if *order == vec![5, 4, 3, 2, 1]));
    let reaction = console.handle(Message::NewPwConnection(9, vec![9]));
    assert!(reaction.messages.is_empty());
}

#[test]
fn unknown_devices_are_not_connected() {
    let mut console = console();
    console.settings.hw_order = Some(vec![vec![1], vec![2], vec![3], vec![4], vec![7]]);
    for client in 1..6 {
        let reaction = console.handle(Message::NewPwConnection(client, vec![client as u8]));
        assert!(reaction.messages.is_empty());
    }
}

#[test]
fn requests_are_passed_on() {
    let mut console = console();
    assert!(matches!(console.handle(Message::SaveSettings).request, Some(Request::Save)));
    let reaction = console.handle(Message::ConnectManuals(vec![3, 1]));
    assert!(matches!(reaction.request, Some(Request::Connect(order)) if order == vec![3, 1]));
}

#[test]
fn devices_keep_their_names() {
    let mut table = PortTable::new();
    table.insert(1, b"left".to_vec());
    table.insert(2, b"right".to_vec());
    table.insert(7, b"left".to_vec());
    assert_eq!(table.len(), 3);
    assert_eq!(table.name(1), Some(b"left".to_vec()));
    assert_eq!(table.name(3), None);
    let names = vec![b"right".to_vec(), b"none".to_vec(), b"left".to_vec()];
    assert_eq!(table.known_clients(&names), vec![2, 7]);
    table.insert(2, b"left".to_vec());
    assert_eq!(table.len(), 3);
    assert_eq!(table.known_clients(&names), vec![2, 2]);
}

#[test]
fn player_follows_the_console() {
    let mut console = console();
    let mut player = Player::new();
    player.set_note(0, 5, true);
    let mut sounding = vec![false; 128];
    let mut queue = vec![
        Message::ToggleRegister(3, 0),
        Message::ToggleRegister(60, 0),
        Message::ToggleRegister(60, 1),
        Message::SetBank(1, 1),
        Message::ToggleRegister(3, 0),
        Message::ToggleRegister(127, 0),
        Message::SetBank(1, 2),
        Message::AdvanceBank(-1, false),
        Message::AdvanceBank(63, false),
        Message::AdvanceBank(2, false),
        Message::ChangeBank(1, 1),
    ];
    let mut changes = 0;
    queue.reverse();
    while let Some(message) = queue.pop() {
        assert!(console.is_accepted(&message));
        let reaction = console.handle(message);
        for task in reaction.tasks {
            for action in player.handle(task) {
                match action {
                    PlayerAction::Schedule(task) => {
                        assert_eq!(task.note, 5);
                        sounding[task.register as usize] =
                            task.task_type == ScheduledTaskType::Sample;
                        changes += 1;
                    }
                    PlayerAction::Stream(_) => panic!("not a change"),
                }
            }
        }
        for register in 0..128 {
            assert_eq!(sounding[register], console.current_stops.0[register][0]);
        }
        queue.extend(reaction.messages.into_iter().rev());
    }
    assert!(changes > 10);
}

#[test]
fn spellings_of_a_path() {
    let paths = [
        "", "/", ".", "./", "/.", "a", "./a", "a/", "a/.", "a//b", "a/b", "a/./b", "a/b/", "/a/b",
        "//a/b", "/./a/b", "./a/b", "././a/b", "../a/b", "..", "../", "a/../b", "a/b/..", ".a",
        ".a/b", "a/.b", "a./b", "...", "./.", "b/a",
    ];
    for a in paths {
        for b in paths {
            assert_eq!(
                same_path(&a.as_bytes().to_vec(), &b.as_bytes().to_vec()),
                std::path::Path::new(a) == std::path::Path::new(b),
                "{a} {b}"
            );
        }
    }
}

#[test]
fn another_spelling_finds_the_device() {
    let mut table = PortTable::new();
    table.insert(1, b"../3-1/".to_vec());
    assert_eq!(table.known_clients(&vec![b"..//3-1".to_vec(), b"3-1".to_vec()]), vec![1]);
    assert_eq!(table.name(1), Some(b"../3-1/".to_vec()));
    table.insert(2, b"../3-1".to_vec());
    assert_eq!(table.known_clients(&vec![b"../3-1/".to_vec()]), vec![2]);
}
