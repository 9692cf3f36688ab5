use organ::sample_info::{SampleBank, SampleInfo};
use organ::sampler::{Mix, SampleMessage, Sampler, Samples, FADE_CHUNKS};

fn sound(loop_start: usize, loop_end: usize) -> SampleInfo<f32, f64> {
    let samples = (0..2 * loop_end + 6).map(|i| i as f32).collect();
    SampleInfo { samples, loop_start, loop_end, speed: 1.0 }
}

fn bank() -> SampleBank<f32, f64> {
    let mut bank = SampleBank::new();
    bank.set(3, 7, Some(sound(10, 30)));
    bank.set(4, 7, Some(sound(0, 8)));
    bank.set(100, 7, Some(sound(0, 8)));
    bank
}

/// The chunk of the output, the first sample, and the fading of each part of a
/// mix.
fn parts(mix: &Vec<Mix<f32, f64>>) -> Vec<(usize, usize, Option<usize>)> {
    mix.iter().map(|part| (part.out, part.chunk.start, part.chunk.fade)).collect()
}

#[test]
fn fade_takes_as_many_chunks_as_the_volume() {
    let base: f32 = 0.998;
    let mut factor: f32 = 1.0;
    for _ in 0..4 {
        factor *= base;
    }
    let mut volume: f32 = 1.0;
    let mut chunks = 0;
    while volume > 0.00002 {
        volume *= factor;
        chunks += 1;
    }
    assert_eq!(chunks, FADE_CHUNKS);
}

#[test]
fn voice_loops() {
    let info = sound(10, 30);
    let mut voice = Samples::new(&info);
    let starts: Vec<usize> = (0..14).map(|_| voice.next().unwrap().start).collect();
    assert_eq!(starts, vec![0, 8, 16, 24, 32, 40, 48, 56, 24, 32, 40, 48, 56, 24]);
}

#[test]
fn voice_wraps_inside_a_chunk() {
    let info = sound(10, 31);
    let mut voice = Samples::new(&info);
    let frames: Vec<usize> = (0..12).map(|_| voice.next().unwrap().start / 2).collect();
    assert_eq!(frames, vec![0, 4, 8, 12, 16, 20, 24, 28, 11, 15, 19, 23]);
    let mut position = 12 * 4;
    while position >= 31 {
        position -= 21;
    }
    assert_eq!(voice.index, position);
}

#[test]
fn fading_voice_ends() {
    let info = sound(10, 30);
    let mut voice = Samples::new(&info);
    voice.next();
    voice.fade_out = true;
    for step in 0..FADE_CHUNKS {
        assert_eq!(voice.next().unwrap().fade, Some(step));
    }
    assert!(voice.next().is_none());
    assert!(voice.next().is_none());
}

#[test]
fn held_voice_does_not_fade() {
    let info = sound(10, 30);
    let mut voice = Samples::new(&info);
    for _ in 0..5000 {
        assert_eq!(voice.next().unwrap().fade, None);
    }
}

#[test]
fn voice_is_mixed_chunk_by_chunk() {
    let bank = bank();
    let mut sampler = Sampler::new(&bank);
    let mut mix = Vec::new();
    sampler.receive(SampleMessage::NewNote((3, 7)));
    sampler.render(32, &mut mix);
    assert_eq!(parts(&mix), vec![(0, 0, None), (1, 8, None), (2, 16, None), (3, 24, None)]);
    sampler.render(16, &mut mix);
    assert_eq!(parts(&mix), vec![(0, 32, None), (1, 40, None)]);
    assert_eq!(mix[0].chunk.sample_info.samples[mix[0].chunk.start], 32.0);
}

#[test]
fn silent_pipe_has_no_voice() {
    let bank = bank();
    let mut sampler = Sampler::new(&bank);
    let mut mix = Vec::new();
    sampler.receive(SampleMessage::NewNote((5, 7)));
    sampler.receive(SampleMessage::Stop(5, 7));
    sampler.render(32, &mut mix);
    assert_eq!(parts(&mix), vec![]);
}

#[test]
fn stopped_voice_fades_and_leaves() {
    let bank = bank();
    let mut sampler = Sampler::new(&bank);
    let mut mix = Vec::new();
    sampler.receive(SampleMessage::NewNote((4, 7)));
    sampler.receive(SampleMessage::Stop(4, 7));
    sampler.render(8 * (FADE_CHUNKS - 1), &mut mix);
    assert_eq!(mix.len(), FADE_CHUNKS - 1);
    assert_eq!(mix[0].chunk.fade, Some(0));
    sampler.render(16, &mut mix);
    assert_eq!(mix.len(), 1);
    assert_eq!(mix[0].chunk.fade, Some(FADE_CHUNKS - 1));
    sampler.render(16, &mut mix);
    assert_eq!(mix.len(), 0);
}

#[test]
fn new_note_keeps_the_fading_one() {
    let bank = bank();
    let mut sampler = Sampler::new(&bank);
    let mut mix = Vec::new();
    sampler.receive(SampleMessage::NewNote((3, 7)));
    sampler.render(8, &mut mix);
    sampler.receive(SampleMessage::Stop(3, 7));
    sampler.receive(SampleMessage::NewNote((3, 7)));
    sampler.render(8, &mut mix);
    assert_eq!(parts(&mix), vec![(0, 0, None), (0, 8, Some(0))]);
    sampler.render(8, &mut mix);
    assert_eq!(parts(&mix), vec![(0, 8, None), (0, 16, Some(1))]);
    sampler.receive(SampleMessage::Stop(3, 7));
    sampler.render(8, &mut mix);
    assert_eq!(parts(&mix), vec![(0, 16, Some(0)), (0, 24, Some(2))]);
}

#[test]
fn seventeenth_voice_replaces_the_last() {
    let bank = bank();
    let mut sampler = Sampler::new(&bank);
    let mut mix = Vec::new();
    for _ in 0..16 {
        sampler.receive(SampleMessage::NewNote((3, 7)));
    }
    sampler.render(8, &mut mix);
    assert_eq!(mix.len(), 16);
    sampler.receive(SampleMessage::NewNote((3, 7)));
    sampler.render(8, &mut mix);
    assert_eq!(mix.len(), 17);
    let fresh: Vec<usize> =
        mix.iter().map(|part| part.chunk.start).filter(|start| *start == 0).collect();
    assert_eq!(fresh.len(), 1);
}

#[test]
fn odd_buffer_drops_every_voice() {
    let bank = bank();
    let mut sampler = Sampler::new(&bank);
    let mut mix = Vec::new();
    sampler.receive(SampleMessage::NewNote((3, 7)));
    sampler.render(12, &mut mix);
    assert_eq!(parts(&mix), vec![(0, 0, None)]);
    sampler.render(16, &mut mix);
    assert_eq!(parts(&mix), vec![]);
}

#[test]
fn empty_buffer_changes_nothing() {
    let bank = bank();
    let mut sampler = Sampler::new(&bank);
    let mut mix = Vec::new();
    sampler.receive(SampleMessage::NewNote((3, 7)));
    sampler.render(0, &mut mix);
    assert_eq!(parts(&mix), vec![]);
    sampler.render(8, &mut mix);
    assert_eq!(parts(&mix), vec![(0, 0, None)]);
}

#[test]
fn two_buffers_are_one() {
    let bank = bank();
    let mut one = Sampler::new(&bank);
    let mut two = Sampler::new(&bank);
    one.receive(SampleMessage::NewNote((3, 7)));
    two.receive(SampleMessage::NewNote((3, 7)));
    let mut long = Vec::new();
    one.render(160, &mut long);
    let mut first = Vec::new();
    two.render(96, &mut first);
    let mut second = Vec::new();
    two.render(64, &mut second);
    let starts = |mix: &Vec<Mix<f32, f64>>| -> Vec<usize> {
        mix.iter().map(|part| part.chunk.start).collect()
    };
    let mut joined = starts(&first);
    joined.extend(starts(&second));
    assert_eq!(starts(&long), joined);
}

#[test]
fn messages_outside_the_table() {
    let bank = bank();
    let sampler = Sampler::new(&bank);
    assert!(sampler.is_accepted(SampleMessage::NewNote((60, 60))));
    assert!(sampler.is_accepted(SampleMessage::NewNote((127, 60))));
    assert!(!sampler.is_accepted(SampleMessage::NewNote((128, 60))));
    assert!(!sampler.is_accepted(SampleMessage::NewNote((60, 61))));
    assert!(!sampler.is_accepted(SampleMessage::NewNote((100, 7))));
    assert!(sampler.is_accepted(SampleMessage::Stop(60, 127)));
    assert!(!sampler.is_accepted(SampleMessage::Stop(61, 0)));
    assert!(!sampler.is_accepted(SampleMessage::Stop(0, 128)));
}

#[test]
fn short_recording_plays_up_to_its_end() {
    let mut bank = SampleBank::new();
    let short = SampleInfo {
        samples: (0..40).map(|i| i as f32).collect(),
        loop_start: 0,
        loop_end: 100,
        speed: 1.0,
    };
    bank.set(3, 7, Some(sound(10, 30)));
    assert!(bank.load(4, 7, short));
    bank.set(5, 7, Some(sound(10, 30)));
    let mut sampler = Sampler::new(&bank);
    let mut mix = Vec::new();
    for register in 3..6 {
        assert!(sampler.is_accepted(SampleMessage::NewNote((register, 7))));
        sampler.receive(SampleMessage::NewNote((register, 7)));
    }
    assert_eq!(sampler.render(64, &mut mix), None);
    assert_eq!(mix.len(), 24);
    assert_eq!(sampler.render(16, &mut mix), Some(1));
    assert_eq!(parts(&mix), vec![(0, 24, None), (1, 32, None)]);
    assert_eq!(sampler.render(8, &mut mix), None);
    assert_eq!(parts(&mix), vec![(0, 40, None), (0, 64, None), (0, 24, None)]);
}

#[test]
fn short_recording_may_fade_in_time() {
    let mut bank = SampleBank::new();
    let samples = vec![0.0; 8 * FADE_CHUNKS];
    let long = 10 * FADE_CHUNKS;
    bank.set(3, 7, Some(SampleInfo { samples, loop_start: 0, loop_end: long, speed: 1.0 }));
    let mut sampler = Sampler::new(&bank);
    let mut mix = Vec::new();
    sampler.receive(SampleMessage::NewNote((3, 7)));
    sampler.receive(SampleMessage::Stop(3, 7));
    assert_eq!(sampler.render(8 * FADE_CHUNKS + 80, &mut mix), None);
    assert_eq!(mix.len(), FADE_CHUNKS);
    assert_eq!(sampler.render(80, &mut mix), None);
    assert_eq!(mix.len(), 0);
}

#[test]
fn output_does_not_depend_on_the_cut() {
    let bank = bank();
    for cut in [0, 8, 40, 96, 160] {
        let mut long = Sampler::new(&bank);
        let mut short = Sampler::new(&bank);
        for sampler in [&mut long, &mut short] {
            sampler.receive(SampleMessage::NewNote((3, 7)));
            sampler.receive(SampleMessage::Stop(3, 7));
            sampler.receive(SampleMessage::NewNote((3, 7)));
            sampler.receive(SampleMessage::NewNote((4, 7)));
        }
        let (mut whole, mut head, mut tail) = (Vec::new(), Vec::new(), Vec::new());
        long.render(160, &mut whole);
        short.render(cut, &mut head);
        short.render(160 - cut, &mut tail);
        for out in 0..20 {
            let at = |mix: &Vec<Mix<f32, f64>>, out: usize| -> Vec<(usize, Option<usize>)> {
                mix.iter()
                    .filter(|part| part.out == out)
                    .map(|part| (part.chunk.start, part.chunk.fade))
                    .collect()
            };
            let expected =
                if out < cut / 8 { at(&head, out) } else { at(&tail, out - cut / 8) };
            assert_eq!(at(&whole, out), expected);
            assert_eq!(expected.len(), 3);
        }
    }
}
