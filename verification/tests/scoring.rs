use hoot::scoring::speed_points_of;

fn float_points(response_ms: u64, limit_ms: u64) -> u64 {
    let ratio = (response_ms.min(limit_ms) as f64) / (limit_ms as f64);
    (1_000.0 * (1.0 - 0.5 * ratio)).round() as i64 as u64
}

#[test]
fn instant_answers_earn_a_thousand_and_late_ones_five_hundred() {
    assert_eq!(speed_points_of(0, 10_000), 1_000);
    assert_eq!(speed_points_of(10_000, 10_000), 500);
    assert_eq!(speed_points_of(50_000, 10_000), 500);
    assert_eq!(speed_points_of(5_000, 10_000), 750);
    assert_eq!(speed_points_of(1, 0), 0);
}

#[test]
fn ties_round_away_from_zero_as_the_float_formula_does() {
    // 1000 * (1 - 0.5 * 1/8) = 937.5
    assert_eq!(speed_points_of(1_000, 8_000), 938);
    assert_eq!(speed_points_of(1_000, 8_000), float_points(1_000, 8_000));
}

#[test]
fn integer_points_match_the_float_formula() {
    let limits = [5_000u64, 7_000, 10_000, 13_000, 20_000, 30_000, 99_000, 300_000];
    for limit in limits {
        let mut response = 0u64;
        while response <= limit + 10 {
            assert_eq!(speed_points_of(response, limit), float_points(response, limit), "{response} of {limit}");
            response += 7;
        }
    }
}

#[test]
fn points_never_exceed_a_thousand_and_never_grow_with_time() {
    let limit = 12_345u64;
    let mut previous = speed_points_of(0, limit);
    for response in 0..=limit {
        let p = speed_points_of(response, limit);
        assert!(p <= 1_000);
        assert!(p <= previous);
        previous = p;
    }
}
