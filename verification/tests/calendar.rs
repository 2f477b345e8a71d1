use textutils::cal::{
    first_weekday, format_month, format_year, last_day_in_month, month_name, parse_month,
    parse_year, Date,
};

#[test]
fn test_parse_year_range() {
    assert_eq!(parse_year(2020), Ok(2020));
    assert_eq!(parse_year(1), Ok(1));
    assert_eq!(parse_year(9999), Ok(9999));
    assert_eq!(
        parse_year(0),
        Err("year \"0\" not in the range 1 through 9999".to_string())
    );
    assert_eq!(
        parse_year(10000),
        Err("year \"10000\" not in the range 1 through 9999".to_string())
    );
    assert_eq!(
        parse_year(-5),
        Err("year \"-5\" not in the range 1 through 9999".to_string())
    );
}

#[test]
fn test_parse_month_rules() {
    assert_eq!(parse_month("4".to_string()), Ok(4));
    assert_eq!(parse_month("jan".to_string()), Ok(1));
    assert_eq!(parse_month("JULY".to_string()), Ok(7));
    assert_eq!(parse_month("sep".to_string()), Ok(9));
    assert_eq!(
        parse_month("13".to_string()),
        Err("month \"13\" not in the range 1 through 12".to_string())
    );
    assert_eq!(
        parse_month("0".to_string()),
        Err("month \"0\" not in the range 1 through 12".to_string())
    );
    // "ju" begins June and July
    assert_eq!(
        parse_month("ju".to_string()),
        Err("invalid month name \"ju\"".to_string())
    );
    assert_eq!(
        parse_month("foo".to_string()),
        Err("invalid month name \"foo\"".to_string())
    );
}

#[test]
fn test_leap_years() {
    assert_eq!(last_day_in_month(2020, 2), 29);
    assert_eq!(last_day_in_month(1900, 2), 28);
    assert_eq!(last_day_in_month(2000, 2), 29);
    assert_eq!(last_day_in_month(2021, 2), 28);
    assert_eq!(last_day_in_month(2020, 4), 30);
    assert_eq!(last_day_in_month(2020, 12), 31);
}

#[test]
fn test_first_weekdays() {
    // April 2020 began on a Wednesday; Sunday counts as one.
    assert_eq!(first_weekday(2020, 4), 4);
    // January of year one began on a Monday, proleptic Gregorian.
    assert_eq!(first_weekday(1, 1), 2);
    // February 2024 began on a Thursday.
    assert_eq!(first_weekday(2024, 2), 5);
}

#[test]
fn test_month_names() {
    assert_eq!(month_name(1), "January");
    assert_eq!(month_name(12), "December");
}

#[test]
fn test_format_month_april_2020() {
    let rows = format_month(2020, 4, true, None);
    assert_eq!(rows.len(), 8);
    for row in &rows {
        assert_eq!(row.chars().count(), 22);
    }
    assert!(rows[0].starts_with("     April 2020     "));
    assert_eq!(rows[1], "Su Mo Tu We Th Fr Sa  ");
    assert_eq!(rows[2], "          1  2  3  4  ");
    assert_eq!(rows[3], " 5  6  7  8  9 10 11  ");
    assert_eq!(rows[4], "12 13 14 15 16 17 18  ");
    assert_eq!(rows[5], "19 20 21 22 23 24 25  ");
    assert_eq!(rows[6], "26 27 28 29 30        ");
    assert_eq!(rows[7], "                      ");
}

#[test]
fn test_format_month_highlights_today() {
    let today = Date { year: 2020, month: 4, day: 1 };
    let rows = format_month(2020, 4, true, Some(today));
    assert!(rows[2].contains("\u{1b}[7m 1\u{1b}[0m"));
    // the styling characters add to the raw length but not the visible width
    assert_eq!(rows[2].chars().count(), 30);
    assert_eq!(rows[3].chars().count(), 22);
    // a highlighted day in the short final week still pads to 22 visible
    let late = Date { year: 2020, month: 4, day: 26 };
    let rows_late = format_month(2020, 4, true, Some(late));
    assert!(rows_late[6].contains("\u{1b}[7m26\u{1b}[0m"));
    assert_eq!(rows_late[6].chars().count(), 30);
    assert_eq!(rows_late[6], "\u{1b}[7m26\u{1b}[0m 27 28 29 30        ");
    for (i, row) in rows_late.iter().enumerate() {
        if i != 6 {
            assert_eq!(row.chars().count(), 22);
        }
    }
    // a different month is left unstyled
    let rows_may = format_month(2020, 5, true, Some(today));
    for row in &rows_may {
        assert!(!row.contains('\u{1b}'));
        assert_eq!(row.chars().count(), 22);
    }
}

#[test]
fn test_format_month_without_year_title() {
    let rows = format_month(2020, 4, false, None);
    assert!(rows[0].starts_with("       April        "));
}

#[test]
fn test_format_year_shape() {
    let rows = format_year(2020, None);
    assert_eq!(rows.len(), 36);
    assert_eq!(rows[0].chars().count(), 32);
    assert!(rows[0].contains("2020"));
    // bands are separated by empty lines after rows 8, 17 and 26
    assert_eq!(rows[9], "");
    assert_eq!(rows[18], "");
    assert_eq!(rows[27], "");
    // every month row spans three 22-column blocks
    assert_eq!(rows[1].chars().count(), 66);
    assert!(rows[1].contains("January"));
    assert!(rows[1].contains("February"));
    assert!(rows[1].contains("March"));
    assert!(rows[28].contains("October"));
}
