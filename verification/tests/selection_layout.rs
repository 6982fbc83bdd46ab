use national_day_wallpaper::calendar_index::CalendarIndex;
use national_day_wallpaper::date::Date;
use national_day_wallpaper::layout::{
    determine_box_size, split_long_text_into_multiple_lines, text_line_positions, width_budget,
};
use national_day_wallpaper::naming::{file_matches_country, output_file_name};

fn to_lines(raw: &[&str]) -> Vec<String> {
    raw.iter().map(|s| s.to_string()).collect()
}

#[test]
fn index_buckets_by_date_and_counts_parsed_lines() {
    let lines = to_lines(&[
        "Norway,17/05,Constitution day",
        "Sweden,06/06,National day",
        "not a record",
        "Finland,06/06,Flag day",
    ]);
    let (index, skipped) = CalendarIndex::from_lines(&lines);
    assert_eq!(skipped, vec!["not a record".to_string()]);
    assert_eq!(index.total_count(), 3);
    let bucket = index
        .get_countries_for_date(Date { day: 6, month: 6 })
        .expect("two records share this date");
    assert_eq!(bucket.len(), 2);
    assert_eq!(bucket[0].country, "Sweden");
    assert_eq!(bucket[1].country, "Finland");
    for bucket in &index.buckets {
        for record in &bucket.days {
            assert_eq!(record.date, bucket.date);
        }
    }
}

#[test]
fn fallback_population_is_flattened_per_record() {
    let lines = to_lines(&["A,01/01,a", "B,01/01,b", "C,01/01,c", "D,02/01,d"]);
    let (index, _) = CalendarIndex::from_lines(&lines);
    assert_eq!(index.total_count(), 4);
    let mut countries: Vec<String> = (0..4).map(|i| index.record_at(i).country.clone()).collect();
    countries.sort();
    assert_eq!(
        countries,
        vec!["A".to_string(), "B".to_string(), "C".to_string(), "D".to_string()]
    );
}

#[test]
fn sole_bucket_member_is_selected_deterministically() {
    let lines = to_lines(&["Norway,17/05,Constitution day"]);
    let (index, skipped) = CalendarIndex::from_lines(&lines);
    assert!(skipped.is_empty());
    let today = Date { day: 17, month: 5 };
    let record = index.select_for_date(today).expect("the index is not empty");
    assert_eq!(record.country, "Norway");
    assert_eq!(record.date.display_string(today), "May 17 (today)");
}

#[test]
fn fallback_selects_from_whole_index_and_never_todays_empty_bucket() {
    let lines = to_lines(&["A,01/01,a", "B,01/01,b", "C,01/01,c", "D,02/01,d"]);
    let (index, _) = CalendarIndex::from_lines(&lines);
    let today = Date { day: 25, month: 12 };
    for _ in 0..50 {
        let record = index.select_for_date(today).expect("fallback never fails");
        assert_ne!(record.date, today);
        assert!(["A", "B", "C", "D"].contains(&record.country.as_str()));
    }
}

#[test]
fn empty_index_selects_nothing() {
    let lines: Vec<String> = Vec::new();
    let (index, _) = CalendarIndex::from_lines(&lines);
    assert!(index.select_for_date(Date { day: 1, month: 1 }).is_none());
    assert!(index.get_random_country().is_none());
}

#[test]
fn wrap_concatenation_reproduces_words_within_budget() {
    let text = "the quick brown fox jumps over the lazy dog";
    let lines = split_long_text_into_multiple_lines(text.to_string(), 10);
    let rejoined: Vec<String> =
        lines.join(" ").split_ascii_whitespace().map(|w| w.to_string()).collect();
    let original: Vec<String> = text.split_ascii_whitespace().map(|w| w.to_string()).collect();
    assert_eq!(rejoined, original);
    for line in &lines {
        let total: usize = line.split_ascii_whitespace().map(|w| w.len()).sum();
        assert!(total <= 10 || line.split_ascii_whitespace().count() == 1);
    }
}

#[test]
fn wrap_of_empty_text_is_one_empty_line() {
    assert_eq!(
        split_long_text_into_multiple_lines(String::new(), 30),
        vec![String::new()]
    );
}

#[test]
fn wrap_keeps_overlong_word_unsplit_on_its_own_line() {
    let lines =
        split_long_text_into_multiple_lines("incomprehensibilities is long".to_string(), 10);
    assert_eq!(
        lines,
        vec!["".to_string(), "incomprehensibilities".to_string(), "is long".to_string()]
    );
}

#[test]
fn width_budget_scales_with_country_length_with_floor() {
    assert_eq!(width_budget(&"Norway".to_string()), 30);
    assert_eq!(width_budget(&"a-very-long-country-name".to_string()), 48);
}

#[test]
fn box_size_accumulates_widths_and_heights() {
    let details = vec![(120, 25), (60, 25)];
    let dims = determine_box_size((100, 50), (80, 25), &details, 5);
    assert_eq!(dims.width, 120);
    assert_eq!(dims.height, 50 + 5 + 25 + 5 + (25 + 2) + (25 + 2));
}

#[test]
fn text_positions_follow_the_spacing_rules() {
    let ys = text_line_positions(50, 25, 5, 2, 50);
    assert_eq!(ys, vec![50, 105, 135, 162]);
}

#[test]
fn picture_file_matches_country_by_stem() {
    assert!(file_matches_country(&"Norway.png".to_string(), &"Norway".to_string()));
    assert!(file_matches_country(&"Norway.backup.png".to_string(), &"Norway".to_string()));
    assert!(!file_matches_country(&"Norways.png".to_string(), &"Norway".to_string()));
}

#[test]
fn output_name_carries_source_extension() {
    assert_eq!(output_file_name(&"pictures/Norway.png".to_string()), "todays_picture.png");
    assert_eq!(output_file_name(&"archive.tar.gz".to_string()), "todays_picture.gz");
}
