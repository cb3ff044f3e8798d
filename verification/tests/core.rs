use bass::dsp::{accepts_bus_config, rms, ChannelParams, ClipGate};
use bass::fixed::{fx_mul_unit, half_away, isqrt, scale_clip, AMP_MAX, ONE};

#[test]
fn rms_empty_is_zero() {
    assert_eq!(rms(vec![]), 0);
}

#[test]
fn rms_single_sample_is_magnitude() {
    assert_eq!(rms(vec![ONE]), ONE);
    assert_eq!(rms(vec![-ONE]), ONE);
    assert_eq!(rms(vec![-3 * ONE]), 3 * ONE);
    assert_eq!(rms(vec![12345]), 12345);
}

#[test]
fn rms_zero_only_for_silence() {
    assert_eq!(rms(vec![0, 0, 0, 0]), 0);
    // One smallest-step sample among zeros still reads as non-silence,
    // because the mean square is rounded up.
    assert_eq!(rms(vec![0, 1, 0]), 1);
    assert!(rms(vec![0, 0, -1]) > 0);
}

#[test]
fn rms_exact_value() {
    // (7^2 + 1^2) / 2 = 25, so the RMS is exactly 5.0.
    assert_eq!(rms(vec![7 * ONE, ONE]), 5 * ONE);
    // Equal samples: RMS equals their magnitude.
    assert_eq!(rms(vec![2 * ONE, 2 * ONE, 2 * ONE]), 2 * ONE);
}

#[test]
fn rms_order_invariant() {
    let a = vec![ONE, -2 * ONE, 3 * ONE, 777];
    let b = vec![777, 3 * ONE, ONE, -2 * ONE];
    let c = vec![3 * ONE, 777, -2 * ONE, ONE];
    assert_eq!(rms(a.clone()), rms(b));
    assert_eq!(rms(a), rms(c));
}

#[test]
fn rms_extreme_amplitude() {
    assert_eq!(rms(vec![AMP_MAX, AMP_MAX]), AMP_MAX);
    assert_eq!(rms(vec![-AMP_MAX]), AMP_MAX);
}

#[test]
fn default_state() {
    let g = ClipGate::default();
    assert_eq!(g.mult, ONE);
    assert_eq!(g.gate_rms, 0);
    assert_eq!(g.gate_mult, ONE);
    assert_eq!(g.target, 0);
}

#[test]
fn setters_store_values() {
    let mut g = ClipGate::default();
    g.set_mult(-5 * ONE);
    g.set_gate(ONE / 4);
    assert_eq!(g.mult, -5 * ONE);
    assert_eq!(g.gate_rms, ONE / 4);
    assert_eq!(g.gate_mult, ONE);
    assert_eq!(g.target, 0);
}

#[test]
fn clipped_output_stays_in_unit_range() {
    // Scaled samples far outside full scale are pinned to [-ONE, ONE],
    // whatever the multiplier.
    assert_eq!(scale_clip(100 * ONE, ONE), ONE);
    assert_eq!(scale_clip(-100 * ONE, ONE), -ONE);
    assert_eq!(scale_clip(ONE, i64::MAX), ONE);
    assert_eq!(scale_clip(-ONE, i64::MAX), -ONE);
    assert_eq!(scale_clip(ONE / 2, ONE), ONE / 2);
    let mut g = ClipGate::default();
    g.set_mult(i64::MAX);
    let out = g.process_sample(i64::MAX, ONE);
    assert!(-ONE <= out && out <= ONE);
}

#[test]
fn gate_gain_stays_in_range() {
    let mut g = ClipGate::default();
    g.set_gate(ONE / 3);
    let mut rms_val: i64 = 0;
    for step in 0..1000 {
        let input: i64 = (step * 7919) % (4 * ONE) - 2 * ONE;
        g.process_sample(input, rms_val);
        assert!(0 <= g.gate_mult && g.gate_mult <= ONE);
        rms_val = (rms_val + ONE / 5) % ONE;
    }
}

#[test]
fn gate_opens_with_error_halving() {
    // Start fully closed with loudness above the threshold: the distance to
    // fully open divides by two exactly on every call.
    let mut g = ClipGate {
        mult: ONE,
        gate_rms: 0,
        gate_mult: 0,
        target: 0,
    };
    for n in 1..=16 {
        g.process_sample(0, ONE);
        assert_eq!(g.target, ONE);
        assert_eq!(ONE - g.gate_mult, ONE >> n);
    }
    // ONE is 2^16, so the seventeenth call converges exactly to fully open.
    g.process_sample(0, ONE);
    assert_eq!(g.gate_mult, ONE);
    g.process_sample(0, ONE);
    assert_eq!(g.gate_mult, ONE);
}

#[test]
fn gate_closes_below_threshold() {
    let mut g = ClipGate::default();
    g.set_gate(ONE / 2);
    for n in 1..=16 {
        g.process_sample(0, 0);
        assert_eq!(g.target, 0);
        assert_eq!(g.gate_mult, ONE >> n);
    }
    g.process_sample(0, 0);
    assert_eq!(g.gate_mult, 0);
}

#[test]
fn tie_holds_previous_target() {
    // Loudness exactly at the threshold: the target never moves and the
    // gain keeps converging to the held target.
    let mut g = ClipGate::default();
    g.set_gate(ONE / 2);
    assert_eq!(g.target, 0);
    for _ in 0..20 {
        g.process_sample(ONE, ONE / 2);
        assert_eq!(g.target, 0);
    }
    assert_eq!(g.gate_mult, 0);

    // Open first, then tie: the held target is now fully open.
    let mut h = ClipGate::default();
    h.set_gate(ONE / 2);
    h.process_sample(0, ONE);
    assert_eq!(h.target, ONE);
    for _ in 0..20 {
        h.process_sample(ONE, ONE / 2);
        assert_eq!(h.target, ONE);
    }
    assert_eq!(h.gate_mult, ONE);
}

#[test]
fn loud_overdriven_sample_clips_to_full_scale() {
    // input 2.0 at unity multiplier clips to 1.0; the block is loud, the
    // gate is already fully open and stays there, so the output is 1.0.
    let mut g = ClipGate::default();
    let out = g.process_sample(2 * ONE, 2 * ONE);
    assert_eq!(out, ONE);
    assert_eq!(g.target, ONE);
    assert_eq!(g.gate_mult, ONE);
}

#[test]
fn quiet_block_halves_gate_on_first_call() {
    // input -2.0 at multiplier 0.5 scales to -1.0; the block is below the
    // threshold, so the gating stage aims at closed and its gain falls from 1.0 to
    // 0.5, giving -0.5 out.
    let mut g = ClipGate::default();
    g.set_mult(ONE / 2);
    g.set_gate(ONE / 2);
    let out = g.process_sample(-2 * ONE, 0);
    assert_eq!(out, -ONE / 2);
    assert_eq!(g.target, 0);
    assert_eq!(g.gate_mult, ONE / 2);
}

#[test]
fn block_shares_gate_state_across_channels() {
    // Two identical channels, both quiet relative to the threshold: the
    // second channel continues from the gain history the first left behind,
    // so identical inputs give different outputs.
    let mut g = ClipGate::default();
    let channels = vec![vec![2 * ONE], vec![2 * ONE]];
    let p = ChannelParams {
        gain: ONE,
        mult: ONE,
        gate_rms: 3 * ONE,
    };
    let out = g.process_block(&channels, &vec![p, p]);
    // Block RMS is 2.0, below the 3.0 threshold: the gating stage is closing.
    assert_eq!(out, vec![vec![ONE / 2], vec![ONE / 4]]);
    assert_eq!(g.gate_mult, ONE / 4);
}

#[test]
fn block_applies_output_gain_per_channel() {
    let mut g = ClipGate::default();
    let channels = vec![vec![ONE / 2, -ONE / 4], vec![ONE / 2, -ONE / 4]];
    let loud = ChannelParams {
        gain: 2 * ONE,
        mult: ONE,
        gate_rms: 0,
    };
    let quiet = ChannelParams {
        gain: ONE / 2,
        mult: ONE,
        gate_rms: 0,
    };
    let out = g.process_block(&channels, &vec![loud, quiet]);
    // The block is above the zero threshold, so the gain stays fully open;
    // each channel's samples are scaled by that channel's gain snapshot.
    assert_eq!(out, vec![vec![ONE, -ONE / 2], vec![ONE / 4, -ONE / 8]]);
}

#[test]
fn block_with_empty_channels() {
    let mut g = ClipGate::default();
    let channels: Vec<Vec<i64>> = vec![vec![], vec![]];
    let p = ChannelParams {
        gain: ONE,
        mult: ONE,
        gate_rms: 0,
    };
    let out = g.process_block(&channels, &vec![p, p]);
    assert_eq!(out, vec![Vec::<i64>::new(), Vec::<i64>::new()]);
    assert_eq!(g.gate_mult, ONE);
}

#[test]
fn bus_config_symmetry() {
    assert!(accepts_bus_config(2, 2));
    assert!(accepts_bus_config(1, 1));
    assert!(!accepts_bus_config(0, 0));
    assert!(!accepts_bus_config(2, 1));
}

#[test]
fn fixed_point_helpers() {
    assert_eq!(isqrt(0), 0);
    assert_eq!(isqrt(15), 3);
    assert_eq!(isqrt(16), 4);
    assert_eq!(isqrt(u64::MAX), 4294967295);
    assert_eq!(half_away(4), 2);
    assert_eq!(half_away(3), 2);
    assert_eq!(half_away(-3), -2);
    assert_eq!(half_away(0), 0);
    assert_eq!(fx_mul_unit(ONE, 3 * ONE), 3 * ONE);
    assert_eq!(fx_mul_unit(-ONE / 2, ONE / 2), -ONE / 4);
}
