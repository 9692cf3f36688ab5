use organ::le_bytes::{push_u32, read_u32, truncate_u32};
use organ::order::{midi_note, present_registers, rank_path, register_order, sample_path};
use organ::recording::{read_recording, Recording};
use organ::riff_file::{append_smpl, read_smpl, smpl_contents, RiffError};
use organ::smpl::{is_comparable, semitone_distance, smpl_chunk, SmplChunk};

fn chunk(id: &[u8; 4], contents: &[u8]) -> Vec<u8> {
    let mut bytes = id.to_vec();
    bytes.extend((contents.len() as u32).to_le_bytes());
    bytes.extend(contents);
    if contents.len() % 2 != 0 {
        bytes.push(0);
    }
    bytes
}

fn riff(chunks: &[Vec<u8>]) -> Vec<u8> {
    let body: Vec<u8> = chunks.concat();
    let mut bytes = b"RIFF".to_vec();
    bytes.extend((body.len() as u32 + 4).to_le_bytes());
    bytes.extend(b"WAVE");
    bytes.extend(body);
    bytes
}

fn smpl_words() -> Vec<u8> {
    (0..15u32).flat_map(|word| (1000 + word).to_le_bytes()).collect()
}

#[test]
fn numbers_are_little_endian() {
    let mut bytes = vec![9];
    push_u32(&mut bytes, 0x12345678);
    assert_eq!(bytes, vec![9, 0x78, 0x56, 0x34, 0x12]);
    assert_eq!(read_u32(&bytes, 1), 0x12345678);
    assert_eq!(truncate_u32(0xFFFF_FFFF), 0xFFFF_FFFF);
    assert_eq!(truncate_u32(0x1_0000_0005), 5);
}

#[test]
fn smpl_contents_are_found() {
    let contents = smpl_words();
    let file = riff(&[
        chunk(b"fmt ", &[1; 16]),
        chunk(b"data", &[2; 7]),
        chunk(b"smpl", &contents),
        chunk(b"LIST", &[3; 4]),
    ]);
    assert_eq!(smpl_contents(&file), Ok(Some(contents)));
}

#[test]
fn first_smpl_chunk_counts() {
    let file = riff(&[chunk(b"smpl", &smpl_words()), chunk(b"smpl", &[0; 60])]);
    assert_eq!(smpl_contents(&file), Ok(Some(smpl_words())));
}

#[test]
fn file_without_smpl() {
    let file = riff(&[chunk(b"fmt ", &[1; 16]), chunk(b"data", &[2; 8])]);
    assert_eq!(smpl_contents(&file), Ok(None));
    assert_eq!(read_smpl(&file), Ok(None));
    assert_eq!(read_smpl(&[]), Ok(None));
    assert_eq!(read_smpl(b"RIFF\x04\x00\x00\x00WAVE"), Ok(None));
}

#[test]
fn file_that_ends_in_a_header() {
    let mut file = riff(&[chunk(b"fmt ", &[1; 16]), chunk(b"data", &[2; 8])]);
    file.truncate(40);
    assert_eq!(read_smpl(&file), Err(RiffError::Header));
}

#[test]
fn file_that_ends_in_the_smpl_chunk() {
    let mut file = riff(&[chunk(b"smpl", &smpl_words())]);
    file.pop();
    assert_eq!(read_smpl(&file), Err(RiffError::Contents));
}

#[test]
fn smpl_chunk_without_a_loop() {
    let file = riff(&[chunk(b"smpl", &smpl_words()[..51]), chunk(b"data", &[2; 8])]);
    assert_eq!(read_smpl(&file), Err(RiffError::Loop));
    assert_eq!(SmplChunk::parse(&smpl_words()[..51]), None);
}

#[test]
fn smpl_fields() {
    let chunk = SmplChunk { note: 1003, fine_tune: 1004, loop_start: 1011, loop_end: 1012 };
    assert_eq!(SmplChunk::parse(&smpl_words()), Some(chunk));
    assert_eq!(SmplChunk::parse(&smpl_words()[..52]), Some(chunk));
    assert_eq!(chunk.loop_frames(), (1011, 1013));
}

#[test]
fn smpl_chunk_bytes() {
    let bytes = smpl_chunk(60, 300, 70000);
    let mut expected = b"smpl".to_vec();
    for word in [60u32, 0, 0, 0, 60, 0, 0, 0, 1, 0, 0, 0, 300, 69999, 0, 0] {
        expected.extend(word.to_le_bytes());
    }
    assert_eq!(bytes, expected);
}

#[test]
fn written_smpl_is_read() {
    let before = riff(&[chunk(b"fmt ", &[1; 16]), chunk(b"data", &[2; 64])]);
    let mut file = before.clone();
    append_smpl(&mut file, 77, 1234, 56789);
    assert_eq!(file.len(), before.len() + 68);
    assert_eq!(file[..4], before[..4]);
    assert_eq!(read_u32(&file, 4) as usize, file.len() - 8);
    assert_eq!(file[8..before.len()], before[8..]);
    let read = read_smpl(&file).unwrap().unwrap();
    assert_eq!(read, SmplChunk { note: 77, fine_tune: 0, loop_start: 1234, loop_end: 56788 });
    assert_eq!(read.loop_frames(), (1234, 56789));
    assert_eq!(semitone_distance(read.note, 77), 0);
}

#[test]
fn wav_writer_output_takes_a_smpl_chunk() {
    let spec = hound::WavSpec {
        channels: 2,
        sample_rate: 48000,
        bits_per_sample: 32,
        sample_format: hound::SampleFormat::Float,
    };
    let mut stream = std::io::Cursor::new(Vec::new());
    {
        let mut writer = hound::WavWriter::new(&mut stream, spec).unwrap();
        for i in 0..200 {
            writer.write_sample(i as f32).unwrap();
        }
        writer.finalize().unwrap();
    }
    let mut file = stream.into_inner();
    assert_eq!(read_smpl(&file), Ok(None));
    append_smpl(&mut file, 36, 10, 90);
    let read = read_smpl(&file).unwrap().unwrap();
    assert_eq!((read.note, read.loop_start, read.loop_end), (36, 10, 89));
    let reader = hound::WavReader::new(std::io::Cursor::new(file)).unwrap();
    assert_eq!(reader.len(), 200);
}

#[test]
fn semitones_leave_out_octaves() {
    assert_eq!(semitone_distance(60, 60), 0);
    assert_eq!(semitone_distance(61, 60), 1);
    assert_eq!(semitone_distance(65, 60), 5);
    assert_eq!(semitone_distance(66, 60), -6);
    assert_eq!(semitone_distance(59, 60), -1);
    assert_eq!(semitone_distance(54, 60), -6);
    assert_eq!(semitone_distance(53, 60), 5);
    assert_eq!(semitone_distance(48, 60), 0);
    assert_eq!(semitone_distance(0, 96), 0);
    assert_eq!(semitone_distance(u32::MAX, 36), -1);
    assert_eq!(semitone_distance(73, 60), semitone_distance(61, 60));
}

fn lines(text: &str) -> Vec<String> {
    text.split('\n').map(|line| line.to_owned()).collect()
}

#[test]
fn order_numbers_registers() {
    let order = register_order(&lines("principal\n\n-\nflute\n\n\ntrumpet\n- \n-"));
    let expected: Vec<(usize, String)> = vec![
        (0, "principal".to_owned()),
        (2, "flute".to_owned()),
        (3, "trumpet".to_owned()),
        (4, "- ".to_owned()),
    ];
    assert_eq!(order, expected);
    assert_eq!(register_order(&vec![]), vec![]);
}

#[test]
fn recordings_are_named_after_their_note() {
    let rank = rank_path("./registers", &"flute".to_owned());
    assert_eq!(rank, "./registers/flute");
    assert_eq!(sample_path(&rank, 0), "./registers/flute/36.wav");
    assert_eq!(sample_path(&rank, 60), "./registers/flute/96.wav");
    assert_eq!(sample_path("x", 24), "x/60.wav");
    assert_eq!(midi_note(60), 96);
}

fn recording_file(note: u32, fine_tune: u32, loop_start: u32, loop_end: u32) -> Vec<u8> {
    let mut contents = vec![0; 60];
    contents[12..16].copy_from_slice(&note.to_le_bytes());
    contents[16..20].copy_from_slice(&fine_tune.to_le_bytes());
    contents[44..48].copy_from_slice(&loop_start.to_le_bytes());
    contents[48..52].copy_from_slice(&loop_end.to_le_bytes());
    riff(&[chunk(b"smpl", &contents)])
}

#[test]
fn recordings_are_compared_with_their_key() {
    let expected = Recording { semitones: 3, fine_tune: 77, loop_start: 1000, loop_end: 2001 };
    assert_eq!(read_recording(&recording_file(63, 77, 1000, 2000), 24), Ok(Some(expected)));
    assert_eq!(read_recording(&recording_file(51, 77, 1000, 2000), 24), Ok(Some(expected)));
    assert_eq!(read_recording(&riff(&[chunk(b"data", &[0; 8])]), 24), Ok(None));
}

#[test]
fn recordings_that_cannot_be_read() {
    let low = recording_file(0x8000_0000, 0, 1000, 2000);
    assert_eq!(read_recording(&low, 0), Err(RiffError::Pitch));
    assert_eq!(read_recording(&low[..70], 0), Err(RiffError::Contents));
    assert_eq!(read_recording(&low[..15], 0), Err(RiffError::Header));
    let short = riff(&[chunk(b"smpl", &[0; 20]), chunk(b"data", &[0; 8])]);
    assert_eq!(read_recording(&short, 0), Err(RiffError::Loop));
}

#[test]
fn notes_that_can_be_compared() {
    assert!(is_comparable(0x7FFF_FFFF, 6));
    assert!(!is_comparable(0x7FFF_FFFF, 5));
    assert!(is_comparable(0x8000_0024, 36));
    assert!(!is_comparable(0x8000_0023, 36));
}

#[test]
fn stored_recording_is_in_tune() {
    let mut file = riff(&[chunk(b"fmt ", &[1; 16]), chunk(b"data", &[2; 64])]);
    append_smpl(&mut file, midi_note(17), 1234, 56789);
    let expected = Recording { semitones: 0, fine_tune: 0, loop_start: 1234, loop_end: 56789 };
    assert_eq!(read_recording(&file, 17), Ok(Some(expected)));
}

#[test]
fn loading_ends_at_the_first_missing_register() {
    assert_eq!(present_registers(&vec![]), 0);
    assert_eq!(present_registers(&vec![false, true]), 0);
    assert_eq!(present_registers(&vec![true, true, false, true]), 2);
    assert_eq!(present_registers(&vec![true, true]), 2);
}

#[test]
fn reloaded_sound_is_the_same() {
    let frames: Vec<[f32; 2]> = (0..101).map(|i| [i as f32 / 7.0, -(i as f32) / 3.0]).collect();
    let sound = organ::resampler::resample(&frames, 40, 60, 1.5f64);
    let spec = hound::WavSpec {
        channels: 2,
        sample_rate: 48000,
        bits_per_sample: 32,
        sample_format: hound::SampleFormat::Float,
    };
    let mut stream = std::io::Cursor::new(Vec::new());
    {
        let mut writer = hound::WavWriter::new(&mut stream, spec).unwrap();
        for &sample in &sound.samples {
            writer.write_sample(sample).unwrap();
        }
        writer.finalize().unwrap();
    }
    let mut file = stream.into_inner();
    append_smpl(&mut file, midi_note(3), sound.loop_start, sound.loop_end);
    let recording = read_recording(&file, 3).unwrap().unwrap();
    assert_eq!((recording.semitones, recording.fine_tune), (0, 0));
    let mut reader = hound::WavReader::new(std::io::Cursor::new(file)).unwrap();
    let again = organ::sample_info::SampleInfo {
        samples: reader.samples::<f32>().map(|sample| sample.unwrap()).collect(),
        loop_start: recording.loop_start,
        loop_end: recording.loop_end,
        speed: 1.0f64,
    };
    let mut first = organ::sample_info::SampleBank::new();
    let mut second = organ::sample_info::SampleBank::new();
    assert!(first.load(0, 3, sound));
    assert!(second.load(0, 3, again));
    let one = first.get(0, 3).as_ref().unwrap();
    let other = second.get(0, 3).as_ref().unwrap();
    assert_eq!(one.samples, other.samples);
    assert_eq!((one.loop_start, one.loop_end), (other.loop_start, other.loop_end));
}
