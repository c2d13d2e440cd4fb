use chrono::Datelike;
use loggbok::date::Date;
use loggbok::month::Month;
use loggbok::report::render_report;
use loggbok::text::{human_tenths_to_string, parse_u32, str_eq, tenths_to_string, u64_to_string};
use loggbok::trip::Trip;

fn d(year: u32, month: u32, day: u32) -> Date {
    Date { year, month, day }
}

#[test]
fn decimal_rendering() {
    assert_eq!(u64_to_string(0), "0");
    assert_eq!(u64_to_string(7), "7");
    assert_eq!(u64_to_string(2024), "2024");
    assert_eq!(tenths_to_string(123), "12,3");
    assert_eq!(tenths_to_string(120), "12,0");
    assert_eq!(tenths_to_string(5), "0,5");
    assert_eq!(human_tenths_to_string(123), "12,3");
    assert_eq!(human_tenths_to_string(250), "25");
    assert_eq!(human_tenths_to_string(0), "0");
}

#[test]
fn parse_u32_accepts_exactly_digit_strings_in_range() {
    assert_eq!(parse_u32("0"), Some(0));
    assert_eq!(parse_u32("2024"), Some(2024));
    assert_eq!(parse_u32("007"), Some(7));
    assert_eq!(parse_u32("4294967295"), Some(u32::MAX));
    assert_eq!(parse_u32("4294967296"), None);
    assert_eq!(parse_u32("99999999999999999999"), None);
    assert_eq!(parse_u32(""), None);
    assert_eq!(parse_u32("12a"), None);
    assert_eq!(parse_u32("-5"), None);
    assert_eq!(parse_u32(" 5"), None);
}

#[test]
fn str_eq_compares_by_characters() {
    assert!(str_eq("Göteborg", "Göteborg"));
    assert!(!str_eq("Göteborg", "göteborg"));
    assert!(!str_eq("abc", "abcd"));
    assert!(str_eq("", ""));
}

#[test]
fn date_formats_zero_padded() {
    assert_eq!(d(2024, 1, 5).format_dd_mm(), "05/01");
    assert_eq!(d(2024, 12, 31).format_dd_mm(), "31/12");
    assert_eq!(d(2024, 1, 5).format_iso(), "2024-01-05");
    assert_eq!(d(987, 11, 3).format_iso(), "0987-11-03");
}

#[test]
fn date_validity_and_order() {
    assert_eq!(Date::from_ymd(2024, 2, 29), Some(d(2024, 2, 29)));
    assert_eq!(Date::from_ymd(2023, 2, 29), None);
    assert_eq!(Date::from_ymd(2024, 13, 1), None);
    assert_eq!(Date::from_ymd(2024, 0, 1), None);
    assert_eq!(Date::from_ymd(2024, 4, 31), None);
    assert!(d(2024, 1, 31).lt(&d(2024, 2, 1)));
    assert!(d(2023, 12, 31).lt(&d(2024, 1, 1)));
    assert!(d(2024, 3, 3).le(&d(2024, 3, 3)));
    assert!(!d(2024, 3, 4).le(&d(2024, 3, 3)));
}

#[test]
fn pred_saturating_steps_back_one_day() {
    assert_eq!(d(2024, 3, 10).pred_saturating(), d(2024, 3, 9));
    assert_eq!(d(2024, 3, 1).pred_saturating(), d(2024, 2, 29));
    assert_eq!(d(2023, 3, 1).pred_saturating(), d(2023, 2, 28));
    assert_eq!(d(2024, 1, 1).pred_saturating(), d(2023, 12, 31));
    assert_eq!(d(1, 1, 1).pred_saturating(), d(1, 1, 1));
}

#[test]
fn month_bounds_match_the_calendar() {
    assert_eq!(Month::new(2024, 12).last_of(), d(2024, 12, 31));
    assert_eq!(Month::new(2024, 1).last_of(), d(2024, 1, 31));
    assert_eq!(Month::new(2023, 12).last_of(), d(2023, 12, 31));
    assert_eq!(Month::new(2024, 2).last_of(), d(2024, 2, 29));
    assert_eq!(Month::new(2023, 2).last_of(), d(2023, 2, 28));
    assert_eq!(Month::new(2024, 4).last_of(), d(2024, 4, 30));
    assert_eq!(Month::new(2024, 7).first_of(), d(2024, 7, 1));
}

#[test]
fn month_bounds_agree_with_chrono() {
    for year in [1999u32, 2000, 2023, 2024, 2100] {
        for month in 1..=12u32 {
            let m = Month::new(year, month);
            let first = m.first_of();
            let last = m.last_of();
            let c_first = chrono::NaiveDate::from_ymd_opt(year as i32, month, 1).unwrap();
            let c_last = chrono::NaiveDate::from_ymd_opt(year as i32, month + 1, 1)
                .or_else(|| chrono::NaiveDate::from_ymd_opt(year as i32 + 1, 1, 1))
                .unwrap()
                .pred_opt()
                .unwrap();
            assert_eq!((first.year, first.month, first.day), (year, month, 1));
            assert_eq!(last.day, c_last.day());
            assert_eq!(last.month, c_last.month());
            assert_eq!(first.day, c_first.day());
        }
    }
}

#[test]
fn month_names_and_heading() {
    assert_eq!(Month::new(2024, 1).human_month_name(), "januari");
    assert_eq!(Month::new(2024, 5).human_month_name(), "maj");
    assert_eq!(Month::new(2024, 12).human_month_name(), "december");
    assert_eq!(Month::new(2024, 12).fmt_human(), "december 2024");
}

#[test]
fn month_from_params_parses_digit_strings() {
    assert_eq!(Month::from_params("2024", "12"), Some(Month::new(2024, 12)));
    assert_eq!(Month::from_params("2024", ""), None);
    assert_eq!(Month::from_params("20x4", "12"), None);
    assert_eq!(Month::from_params("", "12"), None);
    // out-of-calendar values parse; validity is the caller's check
    let odd = Month::from_params("2024", "13").unwrap();
    assert_eq!(odd.month, 13);
}

#[test]
fn trip_texts() {
    let mut t = Trip {
        id: 1,
        date: d(2024, 1, 5),
        from: "A".to_string(),
        to: "B".to_string(),
        distance_tenths: 125,
        time_minutes: 30,
        reason: "Möte".to_string(),
        returning: false,
    };
    assert_eq!(t.from_to(), "A-B");
    assert_eq!(t.distance_for_human(), "12,5 km");
    assert_eq!(t.calculate_distance_tenths(), 125);
    t.returning = true;
    assert_eq!(t.from_to(), "A-B ToR");
    assert_eq!(t.distance_for_human(), "25 km");
    assert_eq!(t.calculate_distance_tenths(), 250);
}

#[test]
fn report_row_pads_both_columns() {
    let t = Trip {
        id: 1,
        date: d(2024, 1, 5),
        from: "A".to_string(),
        to: "B".to_string(),
        distance_tenths: 100,
        time_minutes: 30,
        reason: "Möte".to_string(),
        returning: false,
    };
    // route width 9, distance width 5: three dots past each
    assert_eq!(t.report_row(9, 5), "05/01: A-B.........10 km...Möte");
}

#[test]
fn report_aligns_distance_columns() {
    let short = Trip {
        id: 1,
        date: d(2024, 1, 5),
        from: "A".to_string(),
        to: "B".to_string(),
        distance_tenths: 100,
        time_minutes: 30,
        reason: "Möte".to_string(),
        returning: false,
    };
    let long = Trip {
        id: 2,
        date: d(2024, 1, 10),
        from: "Station".to_string(),
        to: "X".to_string(),
        distance_tenths: 20,
        time_minutes: 10,
        reason: "X".to_string(),
        returning: false,
    };
    let text = render_report(&vec![long, short]);
    let lines: Vec<&str> = text.split('\n').collect();
    assert_eq!(lines.len(), 2);
    assert_eq!(lines[0], "10/01: Station-X...2 km....X");
    assert_eq!(lines[1], "05/01: A-B.........10 km...Möte");
    // the distance column starts at one character offset in both lines,
    // whatever the route-label lengths
    let distance_start = |line: &str| {
        line.chars()
            .enumerate()
            .skip(7)
            .find(|(_, c)| c.is_ascii_digit())
            .map(|(i, _)| i)
    };
    assert_eq!(distance_start(lines[0]), distance_start(lines[1]));
    assert_eq!(distance_start(lines[0]), Some(19));
}

#[test]
fn report_of_empty_list_is_empty() {
    let text = render_report(&Vec::new());
    assert_eq!(text, "");
}

#[test]
fn report_month_falls_back_to_previous_month() {
    let today = d(2024, 3, 15);
    assert_eq!(
        Month::report_month("2024", "1", today),
        Month::new(2024, 1)
    );
    // malformed, missing or out-of-calendar parameters: the previous month
    assert_eq!(Month::report_month("", "", today), Month::new(2024, 2));
    assert_eq!(Month::report_month("20x4", "1", today), Month::new(2024, 2));
    assert_eq!(Month::report_month("2024", "13", today), Month::new(2024, 2));
    assert_eq!(Month::report_month("0", "5", today), Month::new(2024, 2));
    // January falls back across the year boundary
    assert_eq!(
        Month::report_month("", "", d(2024, 1, 10)),
        Month::new(2023, 12)
    );
}

#[test]
fn report_row_marks_return_trips() {
    let t = Trip {
        id: 1,
        date: d(2024, 2, 14),
        from: "A".to_string(),
        to: "B".to_string(),
        distance_tenths: 125,
        time_minutes: 30,
        reason: "Kurs".to_string(),
        returning: true,
    };
    // the label is "A-B ToR" (7) and the distance "25 km" (5)
    assert_eq!(t.report_row(7, 5), "14/02: A-B ToR...25 km...Kurs");
}
