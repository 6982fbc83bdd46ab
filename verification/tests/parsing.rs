use national_day_wallpaper::date::Date;
use national_day_wallpaper::parse_error::ParseError;
use national_day_wallpaper::parse_file::read_national_day_from_line;

#[test]
fn test_parse_date_from_string_success() {
    let date_result = Date::from_str("26/10");
    match date_result {
        Ok(date) => {
            assert_eq!(date.day, 26);
            assert_eq!(date.month, 10);
        }
        Err(_) => panic!("Could not parse date from string when it should be possible"),
    }
}

#[test]
fn test_parse_date_from_string_success_zero_padded() {
    let date_result = Date::from_str("01/02");
    match date_result {
        Ok(date) => {
            assert_eq!(date.day, 1);
            assert_eq!(date.month, 2);
        }
        Err(_) => panic!("Could not parse date from string when it should be possible"),
    }
}

#[test]
fn test_read_correct_national_day_from_line() {
    let line = String::from("Norway,17/05,Constitution day");
    let national_day = read_national_day_from_line(line);
    let expected_date = Date { day: 17, month: 5 };
    match national_day {
        Ok(national_day) => {
            assert_eq!(national_day.country, String::from("Norway"));
            assert_eq!(national_day.date, expected_date);
            assert_eq!(national_day.extra_info, String::from("Constitution day"));
        }
        Err(_) => panic!("Function returned error when it should not"),
    }
}

#[test]
fn date_with_wrong_separator_is_malformed() {
    assert!(matches!(
        Date::from_str("26-10"),
        Err(ParseError::IncorrectNumberOfTokensError)
    ));
}

#[test]
fn date_with_non_numeric_day_is_invalid_number() {
    assert!(matches!(Date::from_str("a/10"), Err(ParseError::ParseIntError)));
}

#[test]
fn date_out_of_calendar_range_still_parses() {
    let date = Date::from_str("99/40").expect("permissive parsing accepts out-of-range values");
    assert_eq!(date.day, 99);
    assert_eq!(date.month, 40);
}

#[test]
fn record_line_with_two_fields_is_skipped_error() {
    assert!(matches!(
        read_national_day_from_line(String::from("Norway,17/05")),
        Err(ParseError::IncorrectNumberOfTokensError)
    ));
}

#[test]
fn record_line_strips_quotes_and_keeps_commas_in_extra_info() {
    let nd = read_national_day_from_line(String::from("Norway,17/05,\"Constitution day, parades\""))
        .expect("line is well-formed");
    assert_eq!(nd.extra_info, String::from("Constitution day, parades"));
}

#[test]
fn record_line_keeps_interior_and_one_sided_quotes() {
    let nd = read_national_day_from_line(String::from("Norway,17/05,a\"b"))
        .expect("line is well-formed");
    assert_eq!(nd.extra_info, String::from("a\"b"));
    let nd = read_national_day_from_line(String::from("Norway,17/05,\"a\"b\""))
        .expect("line is well-formed");
    assert_eq!(nd.extra_info, String::from("a\"b"));
    let nd = read_national_day_from_line(String::from("Norway,17/05,say \"hi\""))
        .expect("line is well-formed");
    assert_eq!(nd.extra_info, String::from("say \"hi\""));
}

#[test]
fn record_line_with_bad_date_reports_number_error() {
    assert!(matches!(
        read_national_day_from_line(String::from("Norway,17th of May,Constitution day")),
        Err(ParseError::IncorrectNumberOfTokensError)
    ));
    assert!(matches!(
        read_national_day_from_line(String::from("Norway,x/05,Constitution day")),
        Err(ParseError::ParseIntError)
    ));
}

#[test]
fn display_appends_today_suffix_only_on_matching_day() {
    let date = Date { day: 17, month: 5 };
    assert_eq!(date.display_string(Date { day: 17, month: 5 }), "May 17 (today)");
    assert_eq!(date.display_string(Date { day: 1, month: 1 }), "May 17");
}

#[test]
fn display_renders_long_form_month_names() {
    let other = Date { day: 9, month: 9 };
    assert_eq!(Date { day: 26, month: 10 }.display_string(other), "October 26");
}

#[test]
fn display_space_pads_single_digit_days() {
    let other = Date { day: 9, month: 9 };
    assert_eq!(Date { day: 1, month: 2 }.display_string(other), "February  1");
    assert_eq!(Date { day: 5, month: 6 }.display_string(other), "June  5");
}

#[test]
fn displayable_rejects_out_of_range_dates() {
    assert!(Date { day: 28, month: 2 }.is_displayable());
    assert!(!Date { day: 29, month: 2 }.is_displayable());
    assert!(!Date { day: 99, month: 40 }.is_displayable());
}
