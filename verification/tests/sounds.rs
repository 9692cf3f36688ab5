use organ::resampler::{resample, tap_frame, taps};
use organ::sample_info::{SampleBank, SampleInfo};

fn info(len: usize, loop_start: usize, loop_end: usize) -> SampleInfo<f32, f64> {
    SampleInfo {
        samples: (0..len).map(|i| i as f32).collect(),
        loop_start,
        loop_end,
        speed: 1.0,
    }
}

#[test]
fn loop_is_closed() {
    let mut sound = info(100, 5, 40);
    assert!(sound.is_closable());
    sound.close_loop();
    assert_eq!(sound.samples.len(), 82 + 33);
    assert_eq!(sound.samples[81], 81.0);
    assert_eq!(sound.samples[82], 10.0);
    assert_eq!(sound.samples[114], 42.0);
    assert_eq!((sound.loop_start, sound.loop_end, sound.speed), (5, 40, 1.0));
    assert!(sound.is_playable());
}

#[test]
fn short_recording_is_not_cut() {
    let mut sound = info(80, 5, 40);
    assert!(sound.is_closable());
    sound.close_loop();
    assert_eq!(sound.samples.len(), 80 + 33);
    assert!(sound.is_playable());
}

#[test]
fn closable_limits() {
    assert!(info(33, 0, 40).is_closable());
    assert!(!info(32, 0, 40).is_closable());
    assert!(info(43, 5, 40).is_closable());
    assert!(!info(42, 5, 40).is_closable());
    assert!(!info(100, 5, 10).is_closable());
    assert!(info(100, 5, 21).is_closable());
    assert!(!info(100, 5, usize::MAX).is_closable());
}

#[test]
fn playable_limits() {
    assert!(info(24, 6, 10).is_playable());
    assert!(!info(23, 6, 10).is_playable());
    assert!(info(28, 5, 11).is_playable());
    assert!(!info(27, 5, 11).is_playable());
    assert!(info(28, 6, 11).is_playable());
    assert!(!info(27, 6, 11).is_playable());
    assert!(!info(26, 7, 10).is_playable());
    assert!(!info(0, 0, 0).is_playable());
    assert!(!info(100, 0, 3).is_playable());
    assert!(!info(100, 20, 10).is_playable());
}

#[test]
fn playable_sounds_play_on() {
    for loop_start in 0..12 {
        for loop_end in loop_start + 4..loop_start + 20 {
            let last = (0..1000).fold((0, 0), |(index, last): (usize, usize), _| {
                let next = index + 4;
                let next = if next >= loop_end { next - (loop_end - loop_start) } else { next };
                (next, last.max(index))
            });
            let needed = 2 * (last.1 + 4);
            assert!(info(needed, loop_start, loop_end).is_playable());
            assert!(!info(needed - 1, loop_start, loop_end).is_playable());
        }
    }
}

#[test]
fn closed_loop_plays_when_recording_is_long_enough() {
    let mut enough = info(87, 20, 60);
    enough.close_loop();
    assert!(enough.is_playable());
    let mut short = info(86, 20, 60);
    short.close_loop();
    assert!(!short.is_playable());
}

#[test]
fn bank_loads_recordings() {
    let mut bank: SampleBank<f32, f64> = SampleBank::new();
    assert!(!bank.load(3, 4, info(72, 20, 30)));
    assert!(!bank.load(3, 4, info(200, 20, 23)));
    assert!(bank.get(3, 4).is_none());
    assert!(bank.load(3, 4, info(40, 0, 100)));
    assert_eq!(bank.get(3, 4).as_ref().unwrap().samples.len(), 40 + 33);
    assert!(!bank.get(3, 4).as_ref().unwrap().is_playable());
    assert!(bank.load(3, 4, info(200, 20, 60)));
    let sound = bank.get(3, 4).as_ref().unwrap();
    assert_eq!(sound.samples.len(), 122 + 33);
    assert_eq!(sound.samples[122], 40.0);
    assert!(bank.get(4, 3).is_none());
}

#[test]
fn bank_keeps_sounds() {
    let mut bank: SampleBank<f32, f64> = SampleBank::new();
    assert!(bank.get(127, 60).is_none());
    bank.set(127, 60, Some(info(26, 6, 10)));
    assert_eq!(bank.get(127, 60).as_ref().unwrap().loop_start, 6);
    assert!(bank.get(127, 59).is_none());
    assert!(bank.get(126, 60).is_none());
    bank.set(127, 60, None);
    assert!(bank.get(127, 60).is_none());
}

#[test]
fn taps_before_the_start_have_no_frame() {
    assert_eq!(tap_frame(5, -6, 100, 200), None);
    assert_eq!(tap_frame(5, -5, 100, 200), Some(0));
    assert_eq!(tap_frame(0, -1, 0, 10), None);
}

#[test]
fn taps_go_round_the_loop() {
    assert_eq!(tap_frame(99, 0, 100, 200), Some(99));
    assert_eq!(tap_frame(199, 0, 100, 200), Some(199));
    assert_eq!(tap_frame(200, 0, 100, 200), Some(100));
    assert_eq!(tap_frame(250, 60, 100, 200), Some(110));
    assert_eq!(tap_frame(250 + 700, 60, 100, 200), Some(110));
}

#[test]
fn all_taps_of_a_frame() {
    let found = taps(2, 100, 200);
    assert_eq!(found.len(), 130);
    assert_eq!(found[0], (-2, 0));
    assert_eq!(found[129], (127, 129));
    let wrapped = taps(150, 100, 200);
    assert_eq!(wrapped.len(), 256);
    assert_eq!(wrapped[0], (-128, 22));
    assert_eq!(wrapped[178], (50, 100));
    assert!(wrapped.iter().all(|(_, frame)| *frame < 200));
}

#[test]
fn resampled_frames_are_interleaved() {
    let frames: Vec<[f32; 2]> = (0..31).map(|i| [i as f32, -(i as f32)]).collect();
    let mut sound = resample(&frames, 10, 20, 0.5f64);
    assert_eq!((sound.loop_start, sound.loop_end, sound.speed), (10, 30, 0.5));
    assert_eq!(sound.samples.len(), 62);
    assert_eq!(sound.samples[40..44], [20.0, -20.0, 21.0, -21.0]);
    assert!(sound.is_closable());
    sound.close_loop();
    assert!(sound.is_playable());
}

#[test]
fn taps_repeat_after_a_turn() {
    let here = taps(300, 100, 173);
    assert_eq!(here, taps(300 + 73, 100, 173));
    assert_eq!(here, taps(300 + 10 * 73, 100, 173));
    assert_ne!(taps(150, 100, 173), taps(150 + 73, 100, 173));
}

#[test]
fn frames_behind_the_loop_do_not_count() {
    for center in [0, 50, 172, 173, 1000, 100000] {
        for (_, frame) in taps(center, 100, 173) {
            assert!(2 * frame + 1 < 2 * 173);
        }
    }
}

#[test]
fn same_recording_makes_the_same_sound() {
    let mut first: SampleBank<f32, f64> = SampleBank::new();
    let mut second: SampleBank<f32, f64> = SampleBank::new();
    let mut again = info(150, 20, 60);
    again.speed = 2.0;
    assert!(first.load(1, 2, info(150, 20, 60)));
    assert!(second.load(1, 2, again));
    let one = first.get(1, 2).as_ref().unwrap();
    let other = second.get(1, 2).as_ref().unwrap();
    assert_eq!(one.samples, other.samples);
    assert_eq!((one.loop_start, one.loop_end), (other.loop_start, other.loop_end));
}
