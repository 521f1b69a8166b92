use noisegen::noise::{
    noise_generator_from_type, BlueNoise, BrownNoise, ControlledNoise, NoiseGenerator, NoiseType,
    PinkNoise,
};
use noisegen::sample::ONE;

fn all_kinds() -> Vec<NoiseType> {
    vec![NoiseType::White, NoiseType::Brown, NoiseType::Pink, NoiseType::Blue]
}

#[test]
fn extreme_draws_stay_in_range() {
    for kind in all_kinds() {
        for pattern in [[ONE, ONE], [-ONE, -ONE], [ONE, -ONE]] {
            let mut g = noise_generator_from_type(kind);
            for k in 0..100 {
                let r = g.next_sample_from(pattern[k % 2]);
                assert!(-ONE <= r && r <= ONE, "{:?} gave {}", kind, r);
            }
        }
    }
}

#[test]
fn random_samples_stay_in_range() {
    for kind in all_kinds() {
        let mut g = noise_generator_from_type(kind);
        for _ in 0..1000 {
            let r = g.next_sample();
            assert!(-ONE <= r && r <= ONE);
        }
    }
}

#[test]
fn white_noise_draws_vary() {
    let mut g = noise_generator_from_type(NoiseType::White);
    let first = g.next_sample();
    assert!(-ONE <= first && first < ONE);
    let mut differs = false;
    for _ in 0..100 {
        let r = g.next_sample();
        assert!(-ONE <= r && r < ONE);
        if r != first {
            differs = true;
        }
    }
    assert!(differs);
}

#[test]
fn white_noise_is_the_draw() {
    let mut g = noise_generator_from_type(NoiseType::White);
    assert_eq!(g.next_sample_from(123456), 123456);
    assert_eq!(g.next_sample_from(-ONE), -ONE);
}

#[test]
fn brown_rises_to_full_scale_in_twenty_calls() {
    let mut b = BrownNoise::new();
    for k in 1..=20 {
        assert_eq!(b.next_sample_from(ONE), k * 50000);
    }
    assert_eq!(b.last, ONE);
    for _ in 0..5 {
        assert_eq!(b.next_sample_from(ONE), ONE);
    }
}

#[test]
fn brown_falls_to_negative_full_scale_in_twenty_calls() {
    let mut b = BrownNoise::new();
    for k in 1..=20 {
        assert_eq!(b.next_sample_from(-ONE), -k * 50000);
    }
    assert_eq!(b.next_sample_from(-ONE), -ONE);
}

#[test]
fn brown_step_truncates_toward_zero() {
    let mut b = BrownNoise::new();
    assert_eq!(b.next_sample_from(-39), -1);
    assert_eq!(b.next_sample_from(39), 0);
}

#[test]
fn pink_cycle_writes_each_tap_once() {
    let mut p = PinkNoise::new();
    let draws = [10, -20, 30, -40, 50, -60, 70];
    for d in draws {
        p.next_sample_from(d);
    }
    assert_eq!(p.taps, draws.to_vec());
    assert_eq!(p.index, 0);
}

#[test]
fn pink_output_is_mean_of_recent_draws() {
    let mut p = PinkNoise::new();
    let draws: Vec<i32> = vec![700000, -70000, 140000, 7, 0, -350000, 21000, 490000, -7000, 630];
    for (k, d) in draws.iter().enumerate() {
        let r = p.next_sample_from(*d);
        let lo = if k + 1 >= 7 { k + 1 - 7 } else { 0 };
        let sum: i64 = draws[lo..=k].iter().map(|x| *x as i64).sum();
        assert_eq!(r as i64, sum / 7, "call {}", k + 1);
    }
}

#[test]
fn pink_first_output_counts_zero_taps() {
    let mut p = PinkNoise::new();
    assert_eq!(p.next_sample_from(700000), 100000);
    assert_eq!(p.next_sample_from(-ONE), -42857);
}

#[test]
fn blue_alternating_draws_double() {
    let mut b = BlueNoise::new();
    assert_eq!(b.next_sample_from(300000), 300000);
    assert_eq!(b.next_sample_from(-300000), -600000);
    assert_eq!(b.next_sample_from(300000), 600000);
}

#[test]
fn blue_alternating_extremes_saturate() {
    let mut b = BlueNoise::new();
    assert_eq!(b.next_sample_from(ONE), ONE);
    assert_eq!(b.next_sample_from(-ONE), -ONE);
    assert_eq!(b.last, -ONE);
}

#[test]
fn generators_start_fresh() {
    match noise_generator_from_type(NoiseType::Pink) {
        NoiseGenerator::Pink(p) => {
            assert_eq!(p.taps, vec![0; 7]);
            assert_eq!(p.index, 0);
        }
        _ => panic!("wrong color"),
    }
    assert!(matches!(noise_generator_from_type(NoiseType::Brown), NoiseGenerator::Brown(BrownNoise { last: 0 })));
    assert!(matches!(noise_generator_from_type(NoiseType::Blue), NoiseGenerator::Blue(BlueNoise { last: 0 })));
    assert!(matches!(noise_generator_from_type(NoiseType::White), NoiseGenerator::White(_)));
}

#[test]
fn controlled_noise_keeps_volume() {
    let c = ControlledNoise::new(NoiseType::Blue, 250000);
    assert_eq!(c.volume, 250000);
    assert!(matches!(c.generator, NoiseGenerator::Blue(_)));
}
