use power_supply::num::{Metric, calc_percentage, render_metric, parse_u64, hm_metric};

#[test]
fn percentage_of_50_over_200_is_25() {
    let m = calc_percentage(50, 200);
    assert_eq!(m, Metric::Finite(2500));
    assert_eq!(render_metric(m), "25.00");
}

#[test]
fn percentage_zero_total_is_non_finite() {
    assert_eq!(calc_percentage(5, 0), Metric::Inf);
    assert_eq!(calc_percentage(0, 0), Metric::NaN);
    assert_eq!(render_metric(calc_percentage(5, 0)), "inf");
    assert_eq!(render_metric(calc_percentage(0, 0)), "NaN");
}

#[test]
fn percentage_rounds_to_two_decimals() {
    // 1/3 -> 33.33... -> 33.33
    assert_eq!(calc_percentage(1, 3), Metric::Finite(3333));
    // 2/3 -> 66.66... -> 66.67
    assert_eq!(calc_percentage(2, 3), Metric::Finite(6667));
    // half-way values round away from zero: 1/8 -> 12.5 -> 12.50... take 1/800 -> 0.125 -> 0.13
    assert_eq!(calc_percentage(1, 800), Metric::Finite(13));
}

#[test]
fn parse_u64_reads_digits_only() {
    assert_eq!(parse_u64("15000000"), Some(15000000));
    assert_eq!(parse_u64("0"), Some(0));
    assert_eq!(parse_u64(""), None);
    assert_eq!(parse_u64("12a"), None);
    assert_eq!(parse_u64("-5"), None);
    assert_eq!(parse_u64("1.5"), None);
    assert_eq!(parse_u64("18446744073709551615"), Some(u64::MAX));
    assert_eq!(parse_u64("18446744073709551616"), None);
}

#[test]
fn render_metric_two_decimals() {
    assert_eq!(render_metric(Metric::Finite(0)), "0.00");
    assert_eq!(render_metric(Metric::Finite(1)), "0.01");
    assert_eq!(render_metric(Metric::Finite(230)), "2.30");
    assert_eq!(render_metric(Metric::Finite(1500)), "15.00");
    assert_eq!(render_metric(Metric::Finite(-130)), "-1.30");
    assert_eq!(render_metric(Metric::NegInf), "-inf");
}

#[test]
fn hours_and_minutes_encoding() {
    // 2.0 raw hours -> 2 hours, 0 minutes
    assert_eq!(hm_metric(false, 2_000_000, 1_000_000), Metric::Finite(200));
    // 1.5 raw hours -> 1 hour, 30 minutes -> 1.30
    assert_eq!(hm_metric(false, 3, 2), Metric::Finite(130));
    // 0.25 raw hours -> 15 minutes -> 0.15
    assert_eq!(hm_metric(false, 1, 4), Metric::Finite(15));
    // 2.75 raw hours -> 2 hours 45 minutes
    assert_eq!(hm_metric(false, 11, 4), Metric::Finite(245));
}

#[test]
fn hours_encoding_division_by_zero() {
    assert_eq!(hm_metric(false, 5, 0), Metric::NaN);
    assert_eq!(hm_metric(true, 5, 0), Metric::NaN);
    assert_eq!(hm_metric(false, 0, 0), Metric::NaN);
}

#[test]
fn hours_encoding_negative_ratio() {
    // -1.5 raw hours: floor is -2, leftover -0.5 hours -> -30 minutes
    assert_eq!(hm_metric(true, 3, 2), Metric::Finite(-230));
}
