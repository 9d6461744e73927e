use engcsbot::clock::{get_clock_emoji_for_hour, parse_time, to_12_hr_clock_str};

#[test]
fn parse_time_reads_pm_times() {
    assert_eq!(parse_time("1:30pm"), Some((13, 30)));
    assert_eq!(parse_time("12:00pm"), Some((12, 0)));
    assert_eq!(parse_time("11:59pm"), Some((23, 59)));
}

#[test]
fn parse_time_reads_am_times() {
    assert_eq!(parse_time("12:30am"), Some((0, 30)));
    assert_eq!(parse_time("01:05am"), Some((1, 5)));
    assert_eq!(parse_time("9:00am"), Some((9, 0)));
}

#[test]
fn parse_time_refuses_minutes_past_fifty_nine() {
    assert_eq!(parse_time("1:60pm"), None);
    assert_eq!(parse_time("1:59pm"), Some((13, 59)));
    assert_eq!(parse_time("1:61pm"), None);
}

#[test]
fn parse_time_accepts_a_plus_sign_as_integer_parsing_does() {
    assert_eq!(parse_time("+1:05am"), Some((1, 5)));
    assert_eq!(parse_time("1:+05am"), Some((1, 5)));
    assert_eq!(parse_time("-1:05am"), None);
}

#[test]
fn parse_time_strips_every_trailing_letter_of_am_pm() {
    assert_eq!(parse_time("1:30ampm"), Some((13, 30)));
    assert_eq!(parse_time("2:15mam"), Some((2, 15)));
}

#[test]
fn parse_time_rejects_hours_out_of_range() {
    assert_eq!(parse_time("0:30am"), None);
    assert_eq!(parse_time("13:00pm"), None);
    assert_eq!(parse_time("4294967296:00am"), None);
}

#[test]
fn parse_time_rejects_malformed_text() {
    assert_eq!(parse_time("1:30"), None);
    assert_eq!(parse_time("1:30PM"), None);
    assert_eq!(parse_time("130pm"), None);
    assert_eq!(parse_time("1:3:0pm"), None);
    assert_eq!(parse_time(":30pm"), None);
    assert_eq!(parse_time("1:pm"), None);
    assert_eq!(parse_time("1:30 pm"), None);
    assert_eq!(parse_time(" 1:30pm"), None);
    assert_eq!(parse_time(""), None);
    assert_eq!(parse_time("pm"), None);
}

#[test]
fn twelve_hour_text_of_clock_times() {
    assert_eq!(to_12_hr_clock_str((0, 5)), "12:05am");
    assert_eq!(to_12_hr_clock_str((13, 30)), "01:30pm");
    assert_eq!(to_12_hr_clock_str((12, 0)), "12:00pm");
    assert_eq!(to_12_hr_clock_str((23, 59)), "11:59pm");
    assert_eq!(to_12_hr_clock_str((9, 7)), "09:07am");
    assert_eq!(to_12_hr_clock_str((10, 123)), "10:123am");
}

#[test]
fn clock_text_reads_back_as_the_same_time() {
    for h in 0u32..24 {
        for m in 0u32..60 {
            let text = to_12_hr_clock_str((h, m));
            assert_eq!(parse_time(&text), Some((h, m)), "{}", text);
        }
    }
}

#[test]
fn clock_faces_follow_the_twelve_hour_dial() {
    assert_eq!(get_clock_emoji_for_hour(0), "🕛️");
    assert_eq!(get_clock_emoji_for_hour(12), "🕛️");
    assert_eq!(get_clock_emoji_for_hour(1), "🕐️");
    assert_eq!(get_clock_emoji_for_hour(14), "🕑️️");
    assert_eq!(get_clock_emoji_for_hour(23), "🕚️");
    assert_eq!(get_clock_emoji_for_hour(25), "🕐️");
}
