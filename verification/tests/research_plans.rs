use yuzu::research::{
    check_shift_days, check_walkforward_params, grid_indices, profile_shifts, variant_name,
    walkforward_windows, WindowPlan, PROFILE_SHIFTS,
};
use yuzu::resample::{bootstrap_plan, block_len_for, isqrt, SplitMix64};

#[test]
fn deterministic_and_gated() {
    assert!(bootstrap_plan(300, 300, 0, 0, 42).is_none()); // off
    assert!(bootstrap_plan(300, 2, 100, 0, 42).is_none()); // too short
    let a = bootstrap_plan(300, 300, 200, 0, 42).unwrap();
    let b = bootstrap_plan(300, 300, 200, 0, 42).unwrap();
    assert_eq!(a.samples, b.samples); // same seed -> same answer
    assert_eq!(a.block_len, 17); // auto = floor(sqrt(299))
}

#[test]
fn bootstrap_plan_shapes_and_bounds() {
    let p = bootstrap_plan(50, 50, 5, 7, 9).unwrap();
    assert_eq!(p.block_len, 7);
    assert_eq!(p.samples.len(), 5);
    for s in &p.samples {
        assert_eq!(s.len(), 49);
        assert!(s.iter().all(|&i| i < 49));
    }
    let q = bootstrap_plan(50, 50, 5, 7, 10).unwrap();
    assert_ne!(p.samples, q.samples);
    assert!(bootstrap_plan(49, 50, 5, 7, 9).is_none()); // axes disagree
}

#[test]
fn splitmix_is_reproducible_and_bounded() {
    let mut a = SplitMix64::new(7);
    let mut b = SplitMix64::new(7);
    for _ in 0..100 {
        assert_eq!(a.next_u64(), b.next_u64());
    }
    let mut c = SplitMix64::new(1);
    for _ in 0..100 {
        assert!(c.below(13) < 13);
    }
    // The first output of SplitMix64 seeded with 0.
    assert_eq!(SplitMix64::new(0).next_u64(), 0xE220_A839_7B1D_CDAF);
}

#[test]
fn integer_square_roots() {
    assert_eq!(isqrt(0), 0);
    assert_eq!(isqrt(299), 17);
    assert_eq!(isqrt(324), 18);
    assert_eq!(isqrt(u64::MAX), 4294967295);
    assert_eq!(block_len_for(0, 0), 1);
    assert_eq!(block_len_for(99, 0), 9);
    assert_eq!(block_len_for(99, 4), 4);
}

fn w(train_start: usize, test_start: usize, test_end: usize, tr: usize, te: usize) -> WindowPlan {
    WindowPlan {
        train_start,
        test_start,
        test_end,
        train_eval_start: tr,
        test_eval_start: te,
    }
}

#[test]
fn walkforward_windows_tile_the_axis() {
    let ws = walkforward_windows(10, 3, 2, 1).unwrap();
    assert_eq!(ws, vec![w(0, 3, 5, 0, 2), w(5, 8, 10, 4, 7)]);
    // The last test window is cut at the end of the axis.
    let ws = walkforward_windows(4, 3, 5, 0).unwrap();
    assert_eq!(ws, vec![w(0, 3, 4, 0, 3)]);
    // Warmup reaches back before each window, floored at the first row.
    let ws = walkforward_windows(9, 2, 2, 10).unwrap();
    assert_eq!(ws, vec![w(0, 2, 4, 0, 0), w(4, 6, 8, 0, 0)]);
}

#[test]
fn walkforward_rejects_short_axes_and_bad_params() {
    assert_eq!(
        walkforward_windows(3, 3, 1, 0).unwrap_err(),
        "only 3 trading days loaded; need > train_days (3)"
    );
    assert_eq!(
        check_walkforward_params(0, 1, 1).unwrap_err(),
        "no variants to select from"
    );
    assert_eq!(
        check_walkforward_params(2, 0, 1).unwrap_err(),
        "train_days and test_days must be > 0"
    );
    assert!(check_walkforward_params(2, 5, 1).is_ok());
}

#[test]
fn grid_without_axes_has_one_base_variant() {
    let idx = grid_indices(&vec![]);
    assert_eq!(idx.len(), 1);
    assert_eq!(variant_name(&vec![], &vec![], &idx[0]), "base");
}

#[test]
fn grid_labels_join_name_value_pairs() {
    // params {"n": [10, 20], "t": [0.5]} (axes in key order)
    let names = vec!["n".to_string(), "t".to_string()];
    let values = vec![
        vec!["10".to_string(), "20".to_string()],
        vec!["0.5".to_string()],
    ];
    let idx = grid_indices(&vec![2, 1]);
    assert_eq!(idx.len(), 2);
    assert_eq!(variant_name(&names, &values, &idx[0]), "n=10,t=0.5");
    assert_eq!(variant_name(&names, &values, &idx[1]), "n=20,t=0.5");
}

#[test]
fn grid_is_in_odometer_order() {
    let idx = grid_indices(&vec![2, 3]);
    assert_eq!(
        idx,
        vec![
            vec![0, 0],
            vec![0, 1],
            vec![0, 2],
            vec![1, 0],
            vec![1, 1],
            vec![1, 2]
        ]
    );
    assert_eq!(grid_indices(&vec![3, 1, 2]).len(), 6);
}

#[test]
fn lookahead_lags_are_sorted_deduped_and_positive() {
    assert_eq!(profile_shifts(&vec![5, 1, 5, 3]).unwrap(), vec![1, 3, 5]);
    assert_eq!(
        profile_shifts(&vec![]).unwrap_err(),
        "profile needs at least one shift"
    );
    assert_eq!(profile_shifts(&vec![2, 0]).unwrap_err(), "shifts must be > 0");
    assert_eq!(profile_shifts(&PROFILE_SHIFTS.to_vec()).unwrap(), PROFILE_SHIFTS.to_vec());
    assert_eq!(check_shift_days(0).unwrap_err(), "shift_days must be > 0");
    assert!(check_shift_days(1).is_ok());
}
