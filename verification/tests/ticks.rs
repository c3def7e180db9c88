use chartistry::range::Range;
use chartistry::ticks::aligned::{capacity, generate_aligned};
use chartistry::ticks::calendar::{civil_from_days, leap, month_start, year_of, year_start};
use chartistry::ticks::format::{format_fixed, pow10_u64};
use chartistry::ticks::timestamps::{generate_timestamps, nth_period, unit_first_second, unit_index, Period};
use chartistry::ticks::{format_timestamp, GeneratedTicks, Generator, TickLabels, TickState};

fn labels(g: &GeneratedTicks) -> Vec<String> {
    g.ticks.iter().map(|t| g.state.format(*t)).collect()
}

fn assert_inside_and_ascending(g: &GeneratedTicks, range: &Range) {
    for t in &g.ticks {
        assert!(range.contains_pos(*t));
    }
    for pair in g.ticks.windows(2) {
        assert!(pair[0] < pair[1]);
    }
}

#[test]
fn no_ticks_for_the_empty_range() {
    let g = TickLabels::aligned_numbers(0, 50).generate(&Range::empty(), 500);
    assert_eq!(g.ticks, vec![]);
    let g = TickLabels::timestamps(50).generate(&Range::empty(), 500);
    assert_eq!(g.ticks, vec![]);
}

#[test]
fn degenerate_range_has_one_tick() {
    let g = TickLabels::aligned_numbers(0, 50).generate(&Range::new(5, 5), 500);
    assert_eq!(g.ticks, vec![5]);
    assert_eq!(labels(&g), vec!["5"]);
    let g = TickLabels::timestamps(50).generate(&Range::new(5, 5), 500);
    assert_eq!(g.ticks, vec![5]);
    assert_eq!(labels(&g), vec!["1970-01-01 00:00:05"]);
}

#[test]
fn numeric_ticks_on_round_numbers() {
    let g = TickLabels::aligned_numbers(0, 50).generate(&Range::new(0, 100), 500);
    assert_eq!(g.ticks, vec![0, 20, 40, 60, 80, 100]);
    assert_eq!(g.state, TickState::Numeric { decimals: 0, places: 0 });
    assert_eq!(labels(&g), vec!["0", "20", "40", "60", "80", "100"]);
}

#[test]
fn numeric_ticks_take_the_finest_step_that_fits() {
    let config = TickLabels::aligned_numbers(0, 10);
    assert_eq!(config.generate(&Range::new(0, 100), 2000).ticks.len(), 101);
    assert_eq!(config.generate(&Range::new(0, 100), 1000).ticks.len(), 51);
    assert_eq!(config.generate(&Range::new(0, 100), 500).ticks.len(), 21);
    assert_eq!(config.generate(&Range::new(0, 100), 200).ticks.len(), 11);
    assert_eq!(config.generate(&Range::new(0, 100), 100).ticks, vec![0, 20, 40, 60, 80, 100]);
    assert_eq!(config.generate(&Range::new(0, 100), 50).ticks, vec![0, 50, 100]);
    assert_eq!(config.generate(&Range::new(0, 100), 20).ticks, vec![0, 100]);
    assert_eq!(config.generate(&Range::new(0, 100), 10).ticks, vec![0]);
}

#[test]
fn numeric_ticks_never_leave_the_range() {
    let config = TickLabels::aligned_numbers(0, 10);
    let g = config.generate(&Range::new(3, 97), 100);
    assert_eq!(g.ticks, vec![10, 20, 30, 40, 50, 60, 70, 80, 90]);
    let g = config.generate(&Range::new(3, 97), 80);
    assert_eq!(g.ticks, vec![20, 40, 60, 80]);
    let g = config.generate(&Range::new(-7, 7), 30);
    assert_eq!(g.ticks, vec![-5, 0, 5]);
    assert_eq!(labels(&g), vec!["-5", "0", "5"]);
    for (lo, hi) in [(-13, 250), (1, 2), (-999, -998), (17, 1_000_000), (-5_000, 4_999)] {
        for available in [-5, 0, 1, 9, 10, 35, 100, 1_000] {
            let range = Range::new(lo, hi);
            let g = config.generate(&range, available);
            assert!(!g.ticks.is_empty());
            assert!(g.ticks.len() as i64 <= std::cmp::max(1, available / 10));
            assert_inside_and_ascending(&g, &range);
        }
    }
}

#[test]
fn numeric_ticks_fall_back_to_the_lower_end() {
    let config = TickLabels::aligned_numbers(0, 10);
    let g = config.generate(&Range::new(6, 9), 10);
    assert_eq!(g.ticks, vec![6]);
    assert_eq!(generate_aligned(6, 9, 1), (vec![6], 0));
    let g = config.generate(&Range::new(i64::MIN, i64::MAX), 10);
    assert_eq!(g.ticks, vec![i64::MIN]);
    assert_eq!(labels(&g), vec!["-9223372036854775808"]);
}

#[test]
fn numeric_ticks_with_the_coarsest_step() {
    let config = TickLabels::aligned_numbers(0, 10);
    let g = config.generate(&Range::new(i64::MIN, i64::MAX), 30);
    assert_eq!(g.ticks, vec![-5_000_000_000_000_000_000, 0, 5_000_000_000_000_000_000]);
    assert_eq!(generate_aligned(i64::MIN, i64::MAX, 3).1, 18);
}

#[test]
fn no_room_gives_a_single_tick() {
    for available in [0, -1, -500, i64::MIN] {
        let g = TickLabels::aligned_numbers(0, 50).generate(&Range::new(0, 100), available);
        assert_eq!(g.ticks, vec![0]);
        let g = TickLabels::timestamps(50).generate(&Range::new(0, 100), available);
        assert_eq!(g.ticks.len(), 1);
    }
}

#[test]
fn capacity_is_room_over_spacing_and_at_least_one() {
    assert_eq!(capacity(500, 50), 10);
    assert_eq!(capacity(549, 50), 10);
    assert_eq!(capacity(49, 50), 1);
    assert_eq!(capacity(0, 50), 1);
    assert_eq!(capacity(-500, 50), 1);
    assert_eq!(capacity(500, 0), 500);
    assert_eq!(capacity(500, 1), 500);
    assert_eq!(capacity(i64::MAX, u32::MAX), i64::MAX / (u32::MAX as i64));
}

#[test]
fn numeric_labels_share_their_precision() {
    let g = TickLabels::aligned_numbers(2, 50).generate(&Range::new(0, 100), 500);
    assert_eq!(g.ticks, vec![0, 20, 40, 60, 80, 100]);
    assert_eq!(g.state, TickState::Numeric { decimals: 2, places: 1 });
    assert_eq!(labels(&g), vec!["0.0", "0.2", "0.4", "0.6", "0.8", "1.0"]);
    let g = TickLabels::aligned_numbers(2, 50).generate(&Range::new(0, 1000), 500);
    assert_eq!(g.state, TickState::Numeric { decimals: 2, places: 0 });
    assert_eq!(labels(&g), vec!["0", "2", "4", "6", "8", "10"]);
    let g = TickLabels::aligned_numbers(2, 50).generate(&Range::new(-2, 3), 500);
    assert_eq!(g.state, TickState::Numeric { decimals: 2, places: 2 });
    assert_eq!(labels(&g), vec!["-0.02", "-0.01", "0.00", "0.01", "0.02", "0.03"]);
    let g = TickLabels::aligned_numbers(1, 50).generate(&Range::new(0, 100_000), 500);
    assert_eq!(g.state, TickState::Numeric { decimals: 1, places: 0 });
    assert_eq!(labels(&g), vec!["0", "2000", "4000", "6000", "8000", "10000"]);
}

#[test]
fn format_fixed_places_the_point() {
    assert_eq!(format_fixed(12345, 2, 2), "123.45");
    assert_eq!(format_fixed(12345, 2, 1), "123.4");
    assert_eq!(format_fixed(12345, 2, 0), "123");
    assert_eq!(format_fixed(12345, 0, 0), "12345");
    assert_eq!(format_fixed(1005, 3, 3), "1.005");
    assert_eq!(format_fixed(5, 3, 3), "0.005");
    assert_eq!(format_fixed(0, 0, 0), "0");
    assert_eq!(format_fixed(0, 4, 2), "0.00");
    assert_eq!(format_fixed(1, 18, 18), "0.000000000000000001");
    assert_eq!(format_fixed(i64::MAX, 18, 18), "9.223372036854775807");
}

#[test]
fn format_fixed_signs_what_is_not_zero() {
    assert_eq!(format_fixed(-12345, 2, 2), "-123.45");
    assert_eq!(format_fixed(-5, 2, 2), "-0.05");
    assert_eq!(format_fixed(-5, 2, 1), "0.0");
    assert_eq!(format_fixed(-99, 2, 0), "0");
    assert_eq!(format_fixed(-100, 2, 0), "-1");
    assert_eq!(format_fixed(i64::MIN, 0, 0), "-9223372036854775808");
    assert_eq!(format_fixed(i64::MIN, 18, 3), "-9.223");
}

#[test]
fn tick_state_holds_decimals_and_places_to_what_counts() {
    let s = TickState::Numeric { decimals: 30, places: 40 };
    assert_eq!(s.format(1), "0.000000000000000001");
    let s = TickState::Numeric { decimals: 2, places: 9 };
    assert_eq!(s.format(150), "1.50");
    let g = TickLabels { min_label_spacing: 10, generator: Generator::AlignedNumbers { decimals: 200 } }
        .generate(&Range::new(0, 10), 20);
    assert_eq!(g.ticks, vec![0, 10]);
    assert_eq!(g.state, TickState::Numeric { decimals: 200, places: 17 });
    assert_eq!(labels(&g), vec!["0.00000000000000000", "0.00000000000000001"]);
}

#[test]
fn powers_of_ten() {
    assert_eq!(pow10_u64(0), 1);
    assert_eq!(pow10_u64(1), 10);
    assert_eq!(pow10_u64(9), 1_000_000_000);
    assert_eq!(pow10_u64(19), 10_000_000_000_000_000_000);
}

#[test]
fn calendar_dates_of_days() {
    assert_eq!(civil_from_days(0), (1970, 1, 1));
    assert_eq!(civil_from_days(-1), (1969, 12, 31));
    assert_eq!(civil_from_days(59), (1970, 3, 1));
    assert_eq!(civil_from_days(11_016), (2000, 2, 29));
    assert_eq!(civil_from_days(11_017), (2000, 3, 1));
    assert_eq!(civil_from_days(19_782), (2024, 2, 29));
    assert_eq!(civil_from_days(-25_508), (1900, 3, 1));
    assert_eq!(civil_from_days(-25_509), (1900, 2, 28));
    assert_eq!(civil_from_days(-719_162), (1, 1, 1));
    assert_eq!(civil_from_days(-719_163), (0, 12, 31));
    assert_eq!(civil_from_days(-106_751_991_167_301), (-292_277_022_657, 1, 27));
    assert_eq!(civil_from_days(106_751_991_167_300), (292_277_026_596, 12, 4));
}

#[test]
fn calendar_years_and_months() {
    assert_eq!(year_start(1970), 0);
    assert_eq!(year_start(1971), 365);
    assert_eq!(year_start(2000), 10_957);
    assert_eq!(year_start(2024), 19_723);
    assert_eq!(year_start(1), -719_162);
    assert_eq!(year_of(0), 1970);
    assert_eq!(year_of(364), 1970);
    assert_eq!(year_of(365), 1971);
    assert_eq!(year_of(-1), 1969);
    assert_eq!(year_of(19_782), 2024);
    assert!(leap(2000) && leap(2024) && leap(-4) && leap(0));
    assert!(!leap(1900) && !leap(2023) && !leap(2100) && !leap(-1));
    assert_eq!(month_start(12 * 1970), 0);
    assert_eq!(month_start(12 * 1970 + 1), 31);
    assert_eq!(month_start(12 * 2024 + 2), 19_783);
    assert_eq!(month_start(12 * 1969 + 11), -31);
}

#[test]
fn calendar_round_trips_every_day_of_some_years() {
    for z in -1_000..1_500 {
        let (y, m, d) = civil_from_days(z);
        assert_eq!(year_of(z), y);
        assert_eq!(month_start(12 * y + m as i64 - 1) + d as i64 - 1, z);
    }
}

#[test]
fn units_hold_their_seconds() {
    for k in 0..7 {
        let p = nth_period(k);
        for t in [-1_000_000_007i128, -604_801, -86_401, -1, 0, 1, 59, 60, 345_599, 345_600, 1_709_168_461] {
            let n = unit_index(p, t);
            assert!(unit_first_second(p, n) <= t);
            assert!(t < unit_first_second(p, n + 1));
        }
    }
    assert_eq!(unit_index(Period::Week, 345_600), 0);
    assert_eq!(unit_index(Period::Week, 345_599), -1);
    assert_eq!(unit_index(Period::Year, 0), 1970);
    assert_eq!(unit_index(Period::Month, 0), 12 * 1970);
    assert_eq!(unit_first_second(Period::Month, 12 * 2024 + 2), 1_709_251_200);
    assert_eq!(unit_first_second(Period::Year, 2021), 1_609_459_200);
}

#[test]
fn temporal_ticks_on_days() {
    let range = Range::new(1_709_251_200, 1_709_510_400);
    let g = TickLabels::timestamps(100).generate(&range, 1000);
    assert_eq!(g.ticks, vec![1_709_251_200, 1_709_337_600, 1_709_424_000, 1_709_510_400]);
    assert_eq!(g.state, TickState::Temporal { period: Period::Day });
    assert_eq!(labels(&g), vec!["2024-03-01", "2024-03-02", "2024-03-03", "2024-03-04"]);
}

#[test]
fn temporal_ticks_on_mondays() {
    let range = Range::new(1_709_251_200, 1_710_892_800);
    let g = TickLabels::timestamps(100).generate(&range, 300);
    assert_eq!(g.ticks, vec![1_709_510_400, 1_710_115_200, 1_710_720_000]);
    assert_eq!(g.state, TickState::Temporal { period: Period::Week });
    assert_eq!(labels(&g), vec!["2024-03-04", "2024-03-11", "2024-03-18"]);
}

#[test]
fn temporal_ticks_on_months() {
    let range = Range::new(1_705_276_800, 1_718_409_600);
    let g = TickLabels::timestamps(100).generate(&range, 600);
    assert_eq!(
        g.ticks,
        vec![1_706_745_600, 1_709_251_200, 1_711_929_600, 1_714_521_600, 1_717_200_000]
    );
    assert_eq!(g.state, TickState::Temporal { period: Period::Month });
    assert_eq!(labels(&g), vec!["2024-02", "2024-03", "2024-04", "2024-05", "2024-06"]);
}

#[test]
fn temporal_ticks_on_years() {
    let range = Range::new(1_590_969_600, 1_685_577_600);
    let g = TickLabels::timestamps(100).generate(&range, 300);
    assert_eq!(g.ticks, vec![1_609_459_200, 1_640_995_200, 1_672_531_200]);
    assert_eq!(g.state, TickState::Temporal { period: Period::Year });
    assert_eq!(labels(&g), vec!["2021", "2022", "2023"]);
}

#[test]
fn temporal_ticks_on_the_clock() {
    let g = TickLabels::timestamps(10).generate(&Range::new(58, 62), 100);
    assert_eq!(g.ticks, vec![58, 59, 60, 61, 62]);
    assert_eq!(labels(&g)[2], "1970-01-01 00:01:00");
    let g = TickLabels::timestamps(10).generate(&Range::new(-30, 130), 100);
    assert_eq!(g.ticks, vec![0, 60, 120]);
    assert_eq!(labels(&g), vec!["1970-01-01 00:00", "1970-01-01 00:01", "1970-01-01 00:02"]);
    let g = TickLabels::timestamps(10).generate(&Range::new(0, 600), 50);
    assert_eq!(g.ticks, vec![0]);
    assert_eq!(g.state, TickState::Temporal { period: Period::Hour });
    assert_eq!(labels(&g), vec!["1970-01-01 00:00"]);
    let g = TickLabels::timestamps(10).generate(&Range::new(-7_200, 7_200), 50);
    assert_eq!(g.ticks, vec![-7_200, -3_600, 0, 3_600, 7_200]);
    assert_eq!(labels(&g)[0], "1969-12-31 22:00");
}

#[test]
fn temporal_ticks_fall_back_to_the_lower_end() {
    let g = TickLabels::timestamps(10).generate(&Range::new(10, 50), 50);
    assert_eq!(g.ticks, vec![10]);
    assert_eq!(g.state, TickState::Temporal { period: Period::Second });
    assert_eq!(labels(&g), vec!["1970-01-01 00:00:10"]);
    let g = TickLabels::timestamps(10).generate(&Range::new(i64::MIN, i64::MAX), 50);
    assert_eq!(g.ticks, vec![i64::MIN]);
    assert_eq!(labels(&g), vec!["-292277022657-01-27 08:29:52"]);
    assert_eq!(generate_timestamps(10, 50, 5), (vec![10], Period::Second));
}

#[test]
fn temporal_ticks_never_leave_the_range() {
    let config = TickLabels::timestamps(10);
    for (lo, hi) in [
        (0, 1),
        (-1, 0),
        (1_705_276_800, 1_718_409_600),
        (-2_203_891_200, 951_782_400),
        (951_782_399, 951_868_801),
        (-62_135_596_801, 253_402_300_800),
    ] {
        for available in [-5, 0, 10, 35, 70, 120, 1_000, 100_000] {
            let range = Range::new(lo, hi);
            let g = config.generate(&range, available);
            assert!(!g.ticks.is_empty());
            assert!(g.ticks.len() as i64 <= std::cmp::max(1, available / 10));
            assert_inside_and_ascending(&g, &range);
        }
    }
}

#[test]
fn timestamp_labels() {
    assert_eq!(format_timestamp(Period::Second, 0), "1970-01-01 00:00:00");
    assert_eq!(format_timestamp(Period::Second, -1), "1969-12-31 23:59:59");
    assert_eq!(format_timestamp(Period::Second, 1_709_168_461), "2024-02-29 01:01:01");
    assert_eq!(format_timestamp(Period::Minute, 1_709_168_461), "2024-02-29 01:01");
    assert_eq!(format_timestamp(Period::Hour, 1_709_168_461), "2024-02-29 01:01");
    assert_eq!(format_timestamp(Period::Day, 1_709_168_461), "2024-02-29");
    assert_eq!(format_timestamp(Period::Week, 1_709_168_461), "2024-02-29");
    assert_eq!(format_timestamp(Period::Month, 1_709_168_461), "2024-02");
    assert_eq!(format_timestamp(Period::Year, 1_709_168_461), "2024");
    assert_eq!(format_timestamp(Period::Second, 946_684_799), "1999-12-31 23:59:59");
    assert_eq!(format_timestamp(Period::Day, -2_203_891_200), "1900-03-01");
}

#[test]
fn timestamp_labels_of_far_years() {
    assert_eq!(format_timestamp(Period::Second, -62_135_596_800), "0001-01-01 00:00:00");
    assert_eq!(format_timestamp(Period::Second, -62_135_596_801), "0000-12-31 23:59:59");
    assert_eq!(format_timestamp(Period::Day, -62_167_219_201), "-1-12-31");
    assert_eq!(format_timestamp(Period::Second, 253_402_300_800), "10000-01-01 00:00:00");
    assert_eq!(format_timestamp(Period::Second, i64::MAX), "292277026596-12-04 15:30:07");
    assert_eq!(format_timestamp(Period::Second, i64::MIN), "-292277022657-01-27 08:29:52");
}

#[test]
fn ticks_come_with_their_labels() {
    let g = TickLabels::aligned_numbers(1, 10).generate(&Range::new(-15, 15), 40);
    assert_eq!(
        g.labelled(),
        vec![(-10, "-1".to_string()), (0, "0".to_string()), (10, "1".to_string())]
    );
    let g = TickLabels::timestamps(10).generate(&Range::empty(), 40);
    assert_eq!(g.labelled(), vec![]);
}

#[test]
fn default_ticks_are_whole_round_numbers() {
    let config = TickLabels::default();
    assert_eq!(config, TickLabels::aligned_numbers(0, 50));
    assert_eq!(config.generate(&Range::new(0, 100), 300).ticks, vec![0, 20, 40, 60, 80, 100]);
}
