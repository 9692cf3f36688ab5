use organ::midi::{midi_client, ManualChannels};
use organ::player::{ScheduledTask, ScheduledTaskType};

fn client(group: &str) -> Option<i32> {
    midi_client(Some("8 bit raw midi"), Some("out"), Some(group))
}

#[test]
fn client_of_a_port() {
    assert_eq!(client("client_20"), Some(20));
    assert_eq!(client("_+7"), Some(7));
    assert_eq!(client("a_-7"), Some(-7));
    assert_eq!(client("a_007"), Some(7));
    assert_eq!(client("a_2147483647"), Some(2147483647));
    assert_eq!(client("a_-2147483648"), Some(-2147483648));
}

#[test]
fn groups_without_a_client() {
    assert_eq!(client("client"), None);
    assert_eq!(client("client_"), None);
    assert_eq!(client("client_-"), None);
    assert_eq!(client("client_+"), None);
    assert_eq!(client("client_1_2"), None);
    assert_eq!(client("client_12 "), None);
    assert_eq!(client("client_x"), None);
    assert_eq!(client("client_--1"), None);
    assert_eq!(client("a_2147483648"), None);
    assert_eq!(client("a_-2147483649"), None);
    assert_eq!(client("a_99999999999999999999999"), None);
}

#[test]
fn clients_as_std_parses_them() {
    for text in ["0", "-0", "+0", "1٣", "12345678901", "", "-2147483648", "00000000000001"] {
        assert_eq!(client(&format!("x_{text}")), text.parse::<i32>().ok());
    }
}

#[test]
fn other_ports_are_left_alone() {
    let group = Some("client_20");
    assert_eq!(midi_client(Some("32 bit float mono audio"), Some("out"), group), None);
    assert_eq!(midi_client(Some("8 bit raw midi"), Some("in"), group), None);
    assert_eq!(midi_client(None, Some("out"), group), None);
    assert_eq!(midi_client(Some("8 bit raw midi"), None, group), None);
    assert_eq!(midi_client(Some("8 bit raw midi"), Some("out"), None), None);
}

#[test]
fn clients_play_manuals_in_order() {
    let channels = ManualChannels::new(&vec![40, 41, 42, 43, 44]);
    let manual = |client: i32| channels.note_task(client, 36, true).task_type;
    assert_eq!(manual(40), ScheduledTaskType::Note(0, true));
    assert_eq!(manual(41), ScheduledTaskType::Note(1, true));
    assert_eq!(manual(42), ScheduledTaskType::Note(2, true));
    assert_eq!(manual(43), ScheduledTaskType::Note(3, true));
    assert_eq!(manual(44), ScheduledTaskType::Note(3, true));
    assert_eq!(manual(45), ScheduledTaskType::Note(3, true));
}

#[test]
fn later_place_counts() {
    let channels = ManualChannels::new(&vec![40, 41, 40]);
    assert_eq!(
        channels.note_task(40, 96, false),
        ScheduledTask { note: 60, register: 0, task_type: ScheduledTaskType::Note(2, false) }
    );
}

#[test]
fn keys_of_the_manuals_are_valid() {
    let channels = ManualChannels::new(&vec![40, 41, 42, 43, 44]);
    for client in 39..46 {
        for note in 36..97 {
            assert!(channels.note_task(client, note, true).is_valid());
        }
        assert!(!channels.note_task(client, 97, true).is_valid());
    }
}
