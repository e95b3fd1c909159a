use redisxann::level::level_for;

#[test]
fn largest_sample_stays_on_layer_zero() {
    assert_eq!(level_for(u64::MAX, 8), 0);
    assert_eq!(level_for(u64::MAX, 2), 0);
}

#[test]
fn smallest_sample_climbs_highest() {
    assert_eq!(level_for(0, 2), 64);
    assert_eq!(level_for(0, 4), 32);
    assert_eq!(level_for(0, 16), 16);
    assert_eq!(level_for(0, 8), 21);
}

#[test]
fn level_is_the_floor_of_the_logarithm() {
    let half: u64 = 1 << 63;
    assert_eq!(level_for(half - 1, 2), 1);
    assert_eq!(level_for(half, 2), 0);
    let eighth: u64 = 1 << 61;
    assert_eq!(level_for(eighth - 1, 8), 1);
    assert_eq!(level_for(eighth, 8), 0);
    assert_eq!(level_for((1 << 58) - 1, 8), 2);
    assert_eq!(level_for(1 << 58, 8), 1);
}

#[test]
fn level_agrees_with_the_real_formula() {
    let m: usize = 6;
    let samples: [u64; 6] = [0, 12345, 1 << 20, 1 << 40, (1 << 62) + 17, u64::MAX - 5];
    for s in samples {
        let u = (s as f64 + 1.0) / 18446744073709551616.0;
        let expected = (-u.ln() / (m as f64).ln()).floor() as usize;
        let got = level_for(s, m);
        assert!(got == expected || got + 1 == expected || got == expected + 1);
    }
    assert_eq!(level_for(1 << 40, 6), 9);
}

#[test]
fn small_out_degrees_have_one_layer() {
    assert_eq!(level_for(0, 0), 0);
    assert_eq!(level_for(0, 1), 0);
    assert_eq!(level_for(77, 1), 0);
}
