use vstd::prelude::*;

verus! {

/// A day of the week, Monday first.
#[derive(Clone, Copy, Debug, PartialEq, Eq, Structural)]
pub enum Weekday {
    Mon,
    Tue,
    Wed,
    Thu,
    Fri,
    Sat,
    Sun,
}

/// Position of a day counted from Monday (Monday is 0, Sunday is 6).
pub open spec fn day_index(d: Weekday) -> nat {
    match d {
        Weekday::Mon => 0,
        Weekday::Tue => 1,
        Weekday::Wed => 2,
        Weekday::Thu => 3,
        Weekday::Fri => 4,
        Weekday::Sat => 5,
        Weekday::Sun => 6,
    }
}

/// The day at a position counted from Monday, taken modulo seven.
pub open spec fn day_at(n: nat) -> Weekday {
    let k = n % 7;
    if k == 0 {
        Weekday::Mon
    } else if k == 1 {
        Weekday::Tue
    } else if k == 2 {
        Weekday::Wed
    } else if k == 3 {
        Weekday::Thu
    } else if k == 4 {
        Weekday::Fri
    } else if k == 5 {
        Weekday::Sat
    } else {
        Weekday::Sun
    }
}

/// The character with ASCII upper case folded to lower case.
pub open spec fn ascii_lower(c: char) -> char {
    if 'A' <= c && c <= 'Z' {
        ((c as int) + 32) as char
    } else {
        c
    }
}

/// The text with ASCII upper case folded to lower case.
pub open spec fn ascii_lower_seq(s: Seq<char>) -> Seq<char> {
    s.map_values(|c: char| ascii_lower(c))
}

/// The three-letter lower-case name of a day.
pub open spec fn short_day_name(d: Weekday) -> Seq<char> {
    match d {
        Weekday::Mon => "mon"@,
        Weekday::Tue => "tue"@,
        Weekday::Wed => "wed"@,
        Weekday::Thu => "thu"@,
        Weekday::Fri => "fri"@,
        Weekday::Sat => "sat"@,
        Weekday::Sun => "sun"@,
    }
}

/// The full lower-case name of a day.
pub open spec fn long_day_name(d: Weekday) -> Seq<char> {
    match d {
        Weekday::Mon => "monday"@,
        Weekday::Tue => "tuesday"@,
        Weekday::Wed => "wednesday"@,
        Weekday::Thu => "thursday"@,
        Weekday::Fri => "friday"@,
        Weekday::Sat => "saturday"@,
        Weekday::Sun => "sunday"@,
    }
}

/// Whether a text names a day: its short or its full name, ASCII case ignored.
pub open spec fn names_day(s: Seq<char>, d: Weekday) -> bool {
    ascii_lower_seq(s) == short_day_name(d) || ascii_lower_seq(s) == long_day_name(d)
}

/// The day that a text names, if any (days are tried Monday first).
pub open spec fn weekday_named(s: Seq<char>) -> Option<Weekday> {
    if names_day(s, Weekday::Mon) {
        Some(Weekday::Mon)
    } else if names_day(s, Weekday::Tue) {
        Some(Weekday::Tue)
    } else if names_day(s, Weekday::Wed) {
        Some(Weekday::Wed)
    } else if names_day(s, Weekday::Thu) {
        Some(Weekday::Thu)
    } else if names_day(s, Weekday::Fri) {
        Some(Weekday::Fri)
    } else if names_day(s, Weekday::Sat) {
        Some(Weekday::Sat)
    } else if names_day(s, Weekday::Sun) {
        Some(Weekday::Sun)
    } else {
        None
    }
}

/// The name a day is shown by: the three-letter English name with a capital
/// first letter, as chrono's `Display` for `Weekday` writes it.
pub open spec fn shown_day_name(d: Weekday) -> Seq<char> {
    match d {
        Weekday::Mon => "Mon"@,
        Weekday::Tue => "Tue"@,
        Weekday::Wed => "Wed"@,
        Weekday::Thu => "Thu"@,
        Weekday::Fri => "Fri"@,
        Weekday::Sat => "Sat"@,
        Weekday::Sun => "Sun"@,
    }
}

/// `chrono::Weekday::from_str`, the day parser of chrono.
///
/// Its source accepts exactly the three-letter and the full English names of
/// the days, comparing ASCII letters without regard to case, and rejects
/// everything else; this contract says so through `weekday_named`.
#[verifier::external_body]
fn chrono_weekday_from_str(s: &str) -> (r: Option<Weekday>)
    ensures
        r == weekday_named(s@),
{
    match <chrono::Weekday as std::str::FromStr>::from_str(s) {
        Ok(chrono::Weekday::Mon) => Some(Weekday::Mon),
        Ok(chrono::Weekday::Tue) => Some(Weekday::Tue),
        Ok(chrono::Weekday::Wed) => Some(Weekday::Wed),
        Ok(chrono::Weekday::Thu) => Some(Weekday::Thu),
        Ok(chrono::Weekday::Fri) => Some(Weekday::Fri),
        Ok(chrono::Weekday::Sat) => Some(Weekday::Sat),
        Ok(chrono::Weekday::Sun) => Some(Weekday::Sun),
        Err(_) => None,
    }
}

impl Weekday {
    /// Parses a day the way the scheduling commands do: a three-letter or a
    /// full English day name, ASCII case ignored.
    pub fn parse(s: &str) -> (r: Option<Weekday>)
        ensures
            r == weekday_named(s@),
    {
        chrono_weekday_from_str(s)
    }

    /// The name the day is shown by ("Mon", "Tue", ...).
    pub fn shown_name(&self) -> (r: &'static str)
        ensures
            r@ == shown_day_name(*self),
    {
        match self {
            Weekday::Mon => "Mon",
            Weekday::Tue => "Tue",
            Weekday::Wed => "Wed",
            Weekday::Thu => "Thu",
            Weekday::Fri => "Fri",
            Weekday::Sat => "Sat",
            Weekday::Sun => "Sun",
        }
    }

    /// Days since Monday (Monday is 0).
    pub fn num_days_from_monday(&self) -> (r: u32)
        ensures
            r == day_index(*self),
    {
        match self {
            Weekday::Mon => 0,
            Weekday::Tue => 1,
            Weekday::Wed => 2,
            Weekday::Thu => 3,
            Weekday::Fri => 4,
            Weekday::Sat => 5,
            Weekday::Sun => 6,
        }
    }

    /// The day before (the day before Monday is Sunday).
    pub fn pred(&self) -> (r: Weekday)
        ensures
            r == day_at(day_index(*self) + 6),
    {
        match self {
            Weekday::Mon => Weekday::Sun,
            Weekday::Tue => Weekday::Mon,
            Weekday::Wed => Weekday::Tue,
            Weekday::Thu => Weekday::Wed,
            Weekday::Fri => Weekday::Thu,
            Weekday::Sat => Weekday::Fri,
            Weekday::Sun => Weekday::Sat,
        }
    }

    /// The day after (the day after Sunday is Monday).
    pub fn succ(&self) -> (r: Weekday)
        ensures
            r == day_at(day_index(*self) + 1),
    {
        match self {
            Weekday::Mon => Weekday::Tue,
            Weekday::Tue => Weekday::Wed,
            Weekday::Wed => Weekday::Thu,
            Weekday::Thu => Weekday::Fri,
            Weekday::Fri => Weekday::Sat,
            Weekday::Sat => Weekday::Sun,
            Weekday::Sun => Weekday::Mon,
        }
    }
}

/// Counting a day's position and reading the day back gives the day again.
pub proof fn lemma_day_at_index(d: Weekday)
    ensures
        day_at(day_index(d)) == d,
        day_index(day_at(day_index(d))) == day_index(d),
{
}

/// The day before the day after a day is that day, and the other way round.
pub proof fn lemma_pred_succ(d: Weekday)
    ensures
        day_at(day_index(day_at(day_index(d) + 1)) + 6) == d,
        day_at(day_index(day_at(day_index(d) + 6)) + 1) == d,
{
}

} // verus!
