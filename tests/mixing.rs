use noisegen::mixer::MixSession;
use noisegen::noise::{ControlledNoise, NoiseGenerator, NoiseType};
use noisegen::sample::{clamp_as_percentage, clamp_sample, ONE};
use noisegen::sink::{fill_frames, to_i16, to_u16, write_frame};

fn white_voices(n: usize, volume: i32) -> Vec<ControlledNoise> {
    (0..n).map(|_| ControlledNoise::new(NoiseType::White, volume)).collect()
}

#[test]
fn percentage_clamps() {
    assert_eq!(clamp_as_percentage(-5 * ONE as i64), 0);
    assert_eq!(clamp_as_percentage(150 * ONE as i64), ONE);
    assert_eq!(clamp_as_percentage(50 * ONE as i64), ONE / 2);
    assert_eq!(clamp_as_percentage(0), 0);
    assert_eq!(clamp_as_percentage(100 * ONE as i64), ONE);
    assert_eq!(clamp_as_percentage(1250000), 12500);
}

#[test]
fn clamp_sample_limits() {
    assert_eq!(clamp_sample(5 * ONE as i128), ONE);
    assert_eq!(clamp_sample(-5 * ONE as i128), -ONE);
    assert_eq!(clamp_sample(1234), 1234);
}

#[test]
fn identical_voices_cancel_count() {
    let s = 500000;
    let v = ONE;
    let m = 100000;
    let mut session = MixSession::new(white_voices(3, v), m);
    let r = session.mix_from_draws(&vec![s, s, s]);
    assert_eq!(r, 50000);
    let mut single = MixSession::new(white_voices(1, v), m);
    assert_eq!(single.mix_from_draws(&vec![s]), r);
}

#[test]
fn identical_loud_voices_clamp() {
    let mut session = MixSession::new(white_voices(3, 33 * ONE), ONE);
    assert_eq!(session.mix_from_draws(&vec![-ONE, -ONE, -ONE]), -ONE);
}

#[test]
fn no_voices_is_silence() {
    let mut session = MixSession::new(Vec::new(), ONE);
    assert_eq!(session.mix_from_draws(&Vec::new()), 0);
    assert_eq!(session.mix_one_frame(), 0);
    let mut quiet = MixSession::new(Vec::new(), 0);
    assert_eq!(quiet.mix_one_frame(), 0);
}

#[test]
fn mix_averages_by_voice_count() {
    let voices = vec![
        ControlledNoise::new(NoiseType::White, ONE),
        ControlledNoise::new(NoiseType::White, ONE / 2),
    ];
    let mut session = MixSession::new(voices, ONE);
    // (600000 * 1.0 + 200000 * 0.5) / 2 = 350000
    assert_eq!(session.mix_from_draws(&vec![600000, 200000]), 350000);
}

#[test]
fn mix_steps_every_voice_once() {
    let voices = vec![
        ControlledNoise::new(NoiseType::Brown, ONE),
        ControlledNoise::new(NoiseType::Blue, ONE),
    ];
    let mut session = MixSession::new(voices, ONE);
    session.mix_from_draws(&vec![ONE, 400000]);
    match &session.voices[0].generator {
        NoiseGenerator::Brown(b) => assert_eq!(b.last, 50000),
        _ => panic!("wrong color"),
    }
    match &session.voices[1].generator {
        NoiseGenerator::Blue(b) => assert_eq!(b.last, 400000),
        _ => panic!("wrong color"),
    }
}

#[test]
fn random_mix_stays_in_range() {
    let mut session = MixSession::from_percentages(
        100 * ONE as i64,
        100 * ONE as i64,
        100 * ONE as i64,
        100 * ONE as i64,
        100 * ONE as i64,
    );
    for _ in 0..1000 {
        let r = session.mix_one_frame();
        assert!(-ONE <= r && r <= ONE);
    }
}

#[test]
fn session_from_percentages() {
    let s = MixSession::from_percentages(
        10 * ONE as i64,
        20 * ONE as i64,
        30 * ONE as i64,
        200 * ONE as i64,
        50 * ONE as i64,
    );
    assert_eq!(s.master_volume, 50000);
    assert_eq!(s.voices.len(), 4);
    assert!(matches!(s.voices[0].generator, NoiseGenerator::Brown(_)));
    assert!(matches!(s.voices[1].generator, NoiseGenerator::Pink(_)));
    assert!(matches!(s.voices[2].generator, NoiseGenerator::White(_)));
    assert!(matches!(s.voices[3].generator, NoiseGenerator::Blue(_)));
    assert_eq!(s.voices[0].volume, 6600000);
    assert_eq!(s.voices[1].volume, 300000);
    assert_eq!(s.voices[2].volume, 100000);
    assert_eq!(s.voices[3].volume, ONE);
}

#[test]
fn conversion_endpoints() {
    assert_eq!(to_i16(0), 0);
    assert_eq!(to_u16(0), 32768);
    assert_eq!(to_i16(ONE), 32767);
    assert_eq!(to_u16(ONE), 65535);
    assert_eq!(to_i16(-ONE), -32768);
    assert_eq!(to_u16(-ONE), 0);
    assert_eq!(to_i16(500000), 16384);
    assert_eq!(to_i16(-1), 0);
}

#[test]
fn write_frame_duplicates() {
    let mut frame = [0i16; 6];
    write_frame(-7, &mut frame);
    assert_eq!(frame, [-7; 6]);
}

#[test]
fn filled_frames_are_mono() {
    let mut session = MixSession::from_percentages(
        100 * ONE as i64,
        100 * ONE as i64,
        100 * ONE as i64,
        100 * ONE as i64,
        100 * ONE as i64,
    );
    let mut data = vec![0u16; 2 * 64 + 1];
    fill_frames(&mut session, &mut data, 2, to_u16);
    for frame in data.chunks(2) {
        assert!(frame.iter().all(|x| *x == frame[0]));
    }
    let mut data16 = vec![0i16; 3 * 10];
    fill_frames(&mut session, &mut data16, 3, to_i16);
    for frame in data16.chunks(3) {
        assert_eq!(frame[0], frame[1]);
        assert_eq!(frame[1], frame[2]);
    }
}

#[test]
fn silent_session_fills_midpoint() {
    let mut session = MixSession::new(Vec::new(), ONE);
    let mut data = vec![1u16; 8];
    fill_frames(&mut session, &mut data, 2, to_u16);
    assert_eq!(data, vec![32768u16; 8]);
    let mut raw = vec![5i32; 4];
    fill_frames(&mut session, &mut raw, 4, |s| s);
    assert_eq!(raw, vec![0; 4]);
}

#[test]
fn fill_mixes_once_per_frame() {
    let voices = vec![
        ControlledNoise::new(NoiseType::Pink, ONE / 4),
        ControlledNoise::new(NoiseType::White, ONE),
    ];
    let mut session = MixSession::new(voices, ONE / 10);
    let mut data = vec![0i16; 5];
    fill_frames(&mut session, &mut data, 2, to_i16);
    match &session.voices[0].generator {
        NoiseGenerator::Pink(p) => assert_eq!(p.index, 3),
        _ => panic!("wrong color"),
    }
    assert_eq!(session.voices[0].volume, ONE / 4);
    assert_eq!(session.voices[1].volume, ONE);
    assert_eq!(session.master_volume, ONE / 10);
    assert_eq!(data[0], data[1]);
    assert_eq!(data[2], data[3]);
}
