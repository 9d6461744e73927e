use engcsbot::weekday::Weekday;

#[test]
fn weekday_parses_short_and_full_names_in_any_case() {
    assert_eq!(Weekday::parse("Monday"), Some(Weekday::Mon));
    assert_eq!(Weekday::parse("tUe"), Some(Weekday::Tue));
    assert_eq!(Weekday::parse("WEDNESDAY"), Some(Weekday::Wed));
    assert_eq!(Weekday::parse("thu"), Some(Weekday::Thu));
    assert_eq!(Weekday::parse("Friday"), Some(Weekday::Fri));
    assert_eq!(Weekday::parse("sat"), Some(Weekday::Sat));
    assert_eq!(Weekday::parse("Sunday"), Some(Weekday::Sun));
}

#[test]
fn weekday_rejects_other_forms() {
    assert_eq!(Weekday::parse("thurs"), None);
    assert_eq!(Weekday::parse("mond"), None);
    assert_eq!(Weekday::parse("mo"), None);
    assert_eq!(Weekday::parse(""), None);
    assert_eq!(Weekday::parse(" monday"), None);
    assert_eq!(Weekday::parse("any day"), None);
}

#[test]
fn weekday_neighbours_wrap_around_the_week() {
    assert_eq!(Weekday::Mon.pred(), Weekday::Sun);
    assert_eq!(Weekday::Sun.succ(), Weekday::Mon);
    assert_eq!(Weekday::Wed.pred(), Weekday::Tue);
    assert_eq!(Weekday::Wed.succ(), Weekday::Thu);
    for d in [
        Weekday::Mon,
        Weekday::Tue,
        Weekday::Wed,
        Weekday::Thu,
        Weekday::Fri,
        Weekday::Sat,
        Weekday::Sun,
    ] {
        assert_eq!(d.pred().succ(), d);
        assert_eq!(d.succ().pred(), d);
    }
}

#[test]
fn weekday_counts_from_monday() {
    assert_eq!(Weekday::Mon.num_days_from_monday(), 0);
    assert_eq!(Weekday::Thu.num_days_from_monday(), 3);
    assert_eq!(Weekday::Sun.num_days_from_monday(), 6);
}
