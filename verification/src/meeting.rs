use vstd::prelude::*;

use crate::weekday::{day_at, day_index, Weekday};

verus! {

/// Why a meeting is kept quiet for a while.
#[derive(Clone, Copy, Debug, PartialEq, Eq, Structural)]
pub enum SuspendReason {
    /// Its announcement for today has gone out.
    AlreadyAnnounced,
    /// It was called off for its next occurrence.
    Cancelled,
}

/// A suspension: why, and the Unix time after which it lapses.
#[derive(Clone, Copy, Debug, PartialEq, Eq, Structural)]
pub struct Suspended {
    pub reason: SuspendReason,
    pub reschedule: i64,
}

/// Why a meeting could not be added to the schedule.
#[derive(Clone, Copy, Debug, PartialEq, Eq, Structural)]
pub enum SchedulingError {
    MeetingAlreadyExists,
}

/// A meeting on the weekly schedule.
#[derive(Debug)]
pub struct ScheduledMeeting {
    /// The day of the week it takes place on.
    pub day: Weekday,
    /// Where it takes place.
    pub location: String,
    /// Start (hour, minute) on the twenty-four-hour clock.
    pub start: (u32, u32),
    /// End (hour, minute) on the twenty-four-hour clock.
    pub end: (u32, u32),
    /// Held this week only: dropped from the schedule once announced.
    pub onetime: bool,
    /// The notice for tomorrow's meeting has been posted.
    pub day_before_announced: bool,
    /// A note posted with the next announcement, then cleared.
    pub note: Option<String>,
    /// The meeting's identifier.
    pub uuid: u128,
}

/// The mathematical value of a scheduled meeting.
pub struct MeetingView {
    pub day: Weekday,
    pub location: Seq<char>,
    pub start: (u32, u32),
    pub end: (u32, u32),
    pub onetime: bool,
    pub day_before_announced: bool,
    pub note: Option<Seq<char>>,
    pub uuid: u128,
}

/// The view of an optional text.
pub open spec fn opt_text(o: Option<String>) -> Option<Seq<char>> {
    match o {
        Some(s) => Some(s@),
        None => None,
    }
}

impl View for ScheduledMeeting {
    type V = MeetingView;

    open spec fn view(&self) -> MeetingView {
        MeetingView {
            day: self.day,
            location: self.location@,
            start: self.start,
            end: self.end,
            onetime: self.onetime,
            day_before_announced: self.day_before_announced,
            note: opt_text(self.note),
            uuid: self.uuid,
        }
    }
}

/// Two meetings are the same meeting when they agree on day, place, start,
/// end and whether they are one-time; the note, the day-before flag and the
/// identifier are state, not part of what was scheduled.
pub open spec fn same_meeting(a: MeetingView, b: MeetingView) -> bool {
    &&& a.day == b.day
    &&& a.location == b.location
    &&& a.start == b.start
    &&& a.end == b.end
    &&& a.onetime == b.onetime
}

/// A clock time that exists on a day: hour below 24, minute below 60.
pub open spec fn valid_clock(t: (u32, u32)) -> bool {
    t.0 < 24 && t.1 < 60
}

/// A moment of local time, as the periodic tasks read it off the clock.
#[derive(Clone, Copy, Debug, PartialEq, Eq, Structural)]
pub struct Moment {
    pub weekday: Weekday,
    pub hour: u32,
    pub minute: u32,
    pub second: u32,
}

/// Where the next occurrence of a meeting falls, relative to a moment: move
/// `days_ahead` days forward, set the clock to `hour:minute:second`, then move
/// another `then_add_days` days forward.
#[derive(Clone, Copy, Debug, PartialEq, Eq, Structural)]
pub struct NextOccurrence {
    pub days_ahead: u32,
    pub hour: u32,
    pub minute: u32,
    pub second: u32,
    pub then_add_days: u32,
}

/// Days from `today` forward to the next `day` (0 when it is today).
pub open spec fn days_until(today: Weekday, day: Weekday) -> nat {
    ((day_index(day) + 7 - day_index(today)) % 7) as nat
}

/// The moment's time of day is later than `h:m:00`.
pub open spec fn later_than(now: Moment, h: u32, m: u32) -> bool {
    now.hour > h || (now.hour == h && (now.minute > m || (now.minute == m && now.second > 0)))
}

/// The next occurrence of a meeting at a moment: on its weekday at its start
/// time; when that is today and already past, a week later.
pub open spec fn next_occurrence(m: MeetingView, now: Moment) -> NextOccurrence {
    let diff = days_until(now.weekday, m.day);
    NextOccurrence {
        days_ahead: diff as u32,
        hour: m.start.0,
        minute: m.start.1,
        second: 0,
        then_add_days: if diff == 0 && later_than(now, m.start.0, m.start.1) {
            7
        } else {
            0
        },
    }
}

/// Seconds from a moment to an occurrence, on a clock without daylight saving.
pub open spec fn seconds_until(occ: NextOccurrence, now: Moment) -> int {
    (occ.days_ahead + occ.then_add_days) * 86400 + occ.hour * 3600 + occ.minute * 60 + occ.second
        - (now.hour * 3600 + now.minute * 60 + now.second)
}

/// Days from a moment to the day on which a meeting that is called off comes
/// back: the day after its next occurrence.
pub open spec fn cancellation_days(m: MeetingView, now: Moment) -> nat {
    let occ = next_occurrence(m, now);
    (occ.days_ahead + occ.then_add_days + 1) as nat
}

impl ScheduledMeeting {
    /// A copy of the meeting.
    pub fn snapshot(&self) -> (r: ScheduledMeeting)
        ensures
            r@ == self@,
    {
        let note = match &self.note {
            Some(n) => Some(n.clone()),
            None => None,
        };
        ScheduledMeeting {
            day: self.day,
            location: self.location.clone(),
            start: self.start,
            end: self.end,
            onetime: self.onetime,
            day_before_announced: self.day_before_announced,
            note,
            uuid: self.uuid,
        }
    }

    /// Whether two meetings are the same meeting (see `same_meeting`).
    pub fn same_as(&self, other: &ScheduledMeeting) -> (r: bool)
        ensures
            r == same_meeting(self@, other@),
    {
        self.day == other.day && self.location == other.location && self.start.0 == other.start.0
            && self.start.1 == other.start.1 && self.end.0 == other.end.0 && self.end.1
            == other.end.1 && self.onetime == other.onetime
    }

    /// Where the next occurrence of this meeting falls, seen from `now`.
    ///
    /// The start must be a clock time that exists (the date arithmetic that
    /// sets the hour and minute fails otherwise).
    pub fn get_datetime_of_next(&self, now: Moment) -> (r: NextOccurrence)
        requires
            valid_clock(self.start),
        ensures
            r == next_occurrence(self@, now),
    {
        let today = now.weekday.num_days_from_monday();
        let meeting = self.day.num_days_from_monday();
        let diff = if meeting >= today {
            meeting - today
        } else {
            7 + meeting - today
        };
        let (h, m) = self.start;
        let past = now.hour > h || (now.hour == h && (now.minute > m || (now.minute == m
            && now.second > 0)));
        NextOccurrence {
            days_ahead: diff,
            hour: h,
            minute: m,
            second: 0,
            then_add_days: if diff == 0 && past {
                7
            } else {
                0
            },
        }
    }
}

impl ScheduledMeeting {
    /// How many days after `now` a called-off meeting comes back: its
    /// suspension runs to the start (hour 0) of the day after its next
    /// occurrence, which is the weekday after the meeting's, one to eight
    /// days ahead.
    ///
    /// The start must be a clock time that exists, as for
    /// `get_datetime_of_next`.
    pub fn days_until_restored(&self, now: Moment) -> (r: u32)
        requires
            valid_clock(self.start),
        ensures
            r == cancellation_days(self@, now),
            1 <= r <= 8,
            day_at((day_index(now.weekday) + r) as nat) == day_at(day_index(self.day) + 1),
    {
        let occ = self.get_datetime_of_next(now);
        occ.days_ahead + occ.then_add_days + 1
    }
}

/// The next occurrence falls on the meeting's weekday, at its start time, at
/// most a week ahead, and never before the moment it is computed at.
pub proof fn lemma_next_occurrence_sound(m: MeetingView, now: Moment)
    requires
        valid_clock(m.start),
        now.hour < 24,
        now.minute < 60,
        now.second < 60,
    ensures
        ({
            let occ = next_occurrence(m, now);
            &&& day_at((day_index(now.weekday) + occ.days_ahead + occ.then_add_days) as nat) == m.day
            &&& occ.days_ahead + occ.then_add_days <= 7
            &&& occ.hour == m.start.0 && occ.minute == m.start.1 && occ.second == 0
            &&& seconds_until(occ, now) >= 0
            &&& seconds_until(occ, now) <= 7 * 86400
        }),
{
}

} // verus!
