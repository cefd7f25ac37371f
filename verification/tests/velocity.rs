use weekly_velocity::decay::B_SCALE;
use weekly_velocity::record::WeekRecord;
use weekly_velocity::record::OPTIMAL_PAGES;
use weekly_velocity::record::SCALE;
use weekly_velocity::record::WEEKDAY_QUALITY;
use weekly_velocity::record::WEEKEND_QUALITY;

fn rec(wd: u8, we: u8, pages: u8, side: u8, cons: u8, load_micro: i64) -> WeekRecord {
    WeekRecord {
        hyperfocus_hours_wd: wd,
        hyperfocus_hours_we: we,
        book_pages: pages,
        side_skills_days: side,
        constraints_days: cons,
        load_micro,
    }
}

#[test]
fn u_hf_zero_hours() {
    assert_eq!(rec(0, 0, 0, 0, 0, 0).u_hf(), 0);
}

#[test]
fn u_hf_quarter_cap_is_half() {
    // sqrt(5/20) = 1/2 exactly.
    assert_eq!(rec(5, 0, 0, 0, 0, 0).u_hf(), 500_000);
}

#[test]
fn u_hf_half_cap() {
    // sqrt(1/2) at micro precision, rounded down.
    assert_eq!(rec(10, 0, 0, 0, 0, 0).u_hf(), 707_106);
}

#[test]
fn u_hf_at_cap_is_one() {
    assert_eq!(rec(10, 10, 0, 0, 0, 0).u_hf(), SCALE);
}

#[test]
fn u_hf_saturates_past_cap() {
    assert_eq!(rec(40, 0, 0, 0, 0, 0).u_hf(), SCALE);
    assert_eq!(rec(255, 255, 0, 0, 0, 0).u_hf(), SCALE);
}

#[test]
fn u_hf_monotone_spots() {
    let a = rec(3, 0, 0, 0, 0, 0).u_hf();
    let b = rec(0, 9, 0, 0, 0, 0).u_hf();
    let c = rec(9, 9, 0, 0, 0, 0).u_hf();
    assert!(a < b && b < c);
}

#[test]
fn q_falls_back_to_midpoint_without_hours() {
    assert_eq!(rec(0, 0, 0, 0, 0, 0).q(WEEKDAY_QUALITY, WEEKEND_QUALITY), 612_500);
    // The fallback holds for any weights passed.
    assert_eq!(rec(0, 0, 9, 0, 0, 0).q(100, 300), 200);
}

#[test]
fn q_weights_by_hour_split() {
    assert_eq!(rec(10, 10, 0, 0, 0, 0).q(WEEKDAY_QUALITY, WEEKEND_QUALITY), 612_500);
    // 5 weekday and 15 weekend hours pull the blend toward the weekend weight.
    assert_eq!(rec(5, 15, 0, 0, 0, 0).q(WEEKDAY_QUALITY, WEEKEND_QUALITY), 643_750);
    // All hours on one side give exactly that side's weight.
    assert_eq!(rec(7, 0, 0, 0, 0, 0).q(WEEKDAY_QUALITY, WEEKEND_QUALITY), WEEKDAY_QUALITY);
    assert_eq!(rec(0, 7, 0, 0, 0, 0).q(WEEKDAY_QUALITY, WEEKEND_QUALITY), WEEKEND_QUALITY);
}

#[test]
fn r_no_pages_is_zero() {
    assert_eq!(rec(0, 0, 0, 0, 0, 0).r(OPTIMAL_PAGES), 0);
}

#[test]
fn r_optimal_pages_is_half() {
    assert_eq!(rec(0, 0, 125, 0, 0, 0).r(OPTIMAL_PAGES), 500_000);
    // The halfway point tracks whatever optimum is passed.
    assert_eq!(rec(0, 0, 40, 0, 0, 0).r(40), 500_000);
}

#[test]
fn r_diminishing_returns_past_optimum() {
    // Double the pages yields two thirds, not double the half.
    assert_eq!(rec(0, 0, 250, 0, 0, 0).r(OPTIMAL_PAGES), 666_666);
}

#[test]
fn r_strictly_increasing_spots() {
    let a = rec(0, 0, 50, 0, 0, 0).r(OPTIMAL_PAGES);
    let b = rec(0, 0, 100, 0, 0, 0).r(OPTIMAL_PAGES);
    let c = rec(0, 0, 101, 0, 0, 0).r(OPTIMAL_PAGES);
    assert_eq!(a, 285_714);
    assert_eq!(b, 444_444);
    assert!(a < b && b < c);
}

#[test]
fn b_full_at_or_under_cap() {
    assert_eq!(rec(0, 0, 0, 0, 0, 0).b(), B_SCALE);
    assert_eq!(rec(10, 9, 0, 0, 0, 0).b(), B_SCALE);
    assert_eq!(rec(10, 10, 0, 0, 0, 0).b(), B_SCALE);
}

#[test]
fn b_one_hour_over_cap() {
    // One step of the decay chain: exp(-1/100) at B_SCALE precision.
    assert_eq!(rec(21, 0, 0, 0, 0, 0).b(), 990_049_833_749);
}

#[test]
fn b_known_points_past_cap() {
    // 25 hours: exp(-1/4); 30 hours: exp(-1); 40 hours: exp(-4).
    assert_eq!(rec(25, 0, 0, 0, 0, 0).b(), 778_800_783_059);
    assert_eq!(rec(30, 0, 0, 0, 0, 0).b(), 367_879_441_137);
    assert_eq!(rec(40, 0, 0, 0, 0, 0).b(), 18_315_638_841);
}

#[test]
fn b_strictly_decreasing_until_zero() {
    let b21 = rec(21, 0, 0, 0, 0, 0).b();
    let b22 = rec(22, 0, 0, 0, 0, 0).b();
    let b30 = rec(30, 0, 0, 0, 0, 0).b();
    assert!(B_SCALE > b21 && b21 > b22 && b22 > b30);
    // Far past the cap the fixed-point factor has decayed to nothing.
    assert_eq!(rec(255, 255, 0, 0, 0, 0).b(), 0);
}

#[test]
fn m_neutral_with_no_days() {
    assert_eq!(rec(0, 0, 0, 0, 0, 0).m(), SCALE);
}

#[test]
fn m_full_weeks_compound() {
    // 1.06 * 1.05 = 1.113 exactly.
    assert_eq!(rec(0, 0, 0, 7, 7, 0).m(), 1_113_000);
}

#[test]
fn m_mixed_days() {
    assert_eq!(rec(0, 0, 0, 3, 5, 0).m(), 1_062_346);
}

#[test]
fn c_discount_at_no_load() {
    assert_eq!(rec(0, 0, 0, 0, 0, 0).c(), 950_000);
}

#[test]
fn c_clamps_load_on_both_sides() {
    assert_eq!(rec(0, 0, 0, 0, 0, -5_000_000).c(), 950_000);
    assert_eq!(rec(0, 0, 0, 0, 0, 2_000_000).c(), rec(0, 0, 0, 0, 0, 1_000_000).c());
}

#[test]
fn c_linear_below_half() {
    assert_eq!(rec(0, 0, 0, 0, 0, 250_000).c(), 975_000);
}

#[test]
fn c_neutral_at_half_load() {
    assert_eq!(rec(0, 0, 0, 0, 0, 500_000).c(), SCALE);
}

#[test]
fn c_convex_rise_above_half() {
    assert_eq!(rec(0, 0, 0, 0, 0, 600_000).c(), 1_063_696);
    assert_eq!(rec(0, 0, 0, 0, 0, 750_000).c(), 1_574_336);
    assert_eq!(rec(0, 0, 0, 0, 0, 800_000).c(), 1_889_632);
    assert_eq!(rec(0, 0, 0, 0, 0, 1_000_000).c(), 4_031_424);
}

#[test]
fn c_increasing_spots_above_half() {
    let a = rec(0, 0, 0, 0, 0, 600_000).c();
    let b = rec(0, 0, 0, 0, 0, 800_000).c();
    let c = rec(0, 0, 0, 0, 0, 1_000_000).c();
    assert!(a < b && b < c);
}

#[test]
fn velocity_balanced_week() {
    // 10+10 hyperfocus hours, optimal pages, full bonus days, half load:
    // 2 * 0.6125 * 1 * 0.5 * 1 * 1.113 * 1 = 0.6817125.
    let v = rec(10, 10, 125, 7, 7, 500_000).calculate_velocity();
    assert_eq!(v, 681_712);
    let line = format!("\n=== Weekly Velocity: {:.3} ===", v as f64 / 1_000_000.0);
    assert_eq!(line, "\n=== Weekly Velocity: 0.682 ===");
}

#[test]
fn velocity_empty_week_is_zero() {
    assert_eq!(rec(0, 0, 0, 0, 0, 0).calculate_velocity(), 0);
}

#[test]
fn velocity_overworked_week_without_reading_is_zero() {
    // Double the hour cap and nothing read: the zero reading ratio wipes the
    // product out whatever the burnout penalty does.
    assert_eq!(rec(40, 0, 0, 0, 0, 1_000_000).calculate_velocity(), 0);
}

#[test]
fn velocity_mixed_week() {
    assert_eq!(rec(15, 5, 200, 3, 5, 300_000).calculate_velocity(), 744_784);
}

#[test]
fn velocity_clamps_to_one() {
    // Heavy reading, full bonuses and maximal load push the raw product
    // past one; the clamp holds the score at SCALE.
    assert_eq!(rec(10, 10, 255, 7, 7, 1_000_000).calculate_velocity(), SCALE);
}
