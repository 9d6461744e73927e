use vstd::prelude::*;

use crate::clock::{clock_emoji, clock_text, get_clock_emoji_for_hour, parse_time, time_of_text, to_12_hr_clock_str};
use crate::manager::{is_first_with_uuid, is_soonest, on_day, view_meetings, ScheduleManager};
use crate::meeting::{MeetingView, Moment, ScheduledMeeting};
use crate::suspension::cancelled_in;
use crate::weekday::{weekday_named, Weekday};

verus! {

// ---------------------------------------------------------------------------
// Permissions
// ---------------------------------------------------------------------------

/// The administrator bit of a Discord permission set.
pub open spec fn has_administrator_bit(bits: u64) -> bool {
    bits & 8u64 != 0
}

/// `serenity::model::permissions::Permissions::administrator`, on the
/// permission set with the given bits.
///
/// Its source tests `contains(ADMINISTRATOR)` with `ADMINISTRATOR = 1 << 3`,
/// which is what the contract states.
#[verifier::external_body]
fn permissions_have_administrator(bits: u64) -> (r: bool)
    ensures
        r == has_administrator_bit(bits),
{
    serenity::all::Permissions::from_bits_retain(bits).administrator()
}

/// Whether the member who issued a command is an administrator, given the
/// bits of the member's permissions (`None` when the command carries no
/// member or no permissions).
pub fn is_user_admin(member_permissions: Option<u64>) -> (r: bool)
    ensures
        r == match member_permissions {
            Some(bits) => has_administrator_bit(bits),
            None => false,
        },
{
    match member_permissions {
        Some(bits) => permissions_have_administrator(bits),
        None => false,
    }
}

/// The user allowed to shut the bot down whatever his permissions.
pub const DEVELOPER_USER_ID: u64 = 329319801589596160;

/// Who may shut the bot down: its developer, or an administrator.
pub fn may_shutdown(user_id: u64, is_admin: bool) -> (r: bool)
    ensures
        r == (user_id == DEVELOPER_USER_ID || is_admin),
{
    user_id == DEVELOPER_USER_ID || is_admin
}

// ---------------------------------------------------------------------------
// Information text
// ---------------------------------------------------------------------------

/// The text before the version number in the information message.
pub open spec fn info_head() -> Seq<char> {
    "\nEngCS Bot "@
}

/// The text after the version number in the information message.
pub open spec fn info_tail() -> Seq<char> {
    "\n\nMade by <@329319801589596160>\nGithub: <https://github.com/MPC-ECS-Club/engcsbot>\n\nIf there is an issue with the bot, or you would like to submit feedback, send a message to <@329319801589596160> or open an issue on the github page.\n"@
}

/// The information message for the given version of the bot.
pub fn get_info(version: &str) -> (r: String)
    ensures
        r@ == info_head() + version@ + info_tail(),
{
    let mut s = "\nEngCS Bot ".to_owned();
    s.append(version);
    s.append(
        "\n\nMade by <@329319801589596160>\nGithub: <https://github.com/MPC-ECS-Club/engcsbot>\n\nIf there is an issue with the bot, or you would like to submit feedback, send a message to <@329319801589596160> or open an issue on the github page.\n",
    );
    s
}

// ---------------------------------------------------------------------------
// The list of upcoming meetings
// ---------------------------------------------------------------------------

/// One line of the list of upcoming meetings.
pub open spec fn meeting_line(m: MeetingView, cancelled: bool) -> Seq<char> {
    (if cancelled {
        "❌️ CANCELLED "@
    } else {
        "✅️ "@
    }) + clock_emoji(m.start.0 as nat) + " "@ + clock_text(m.start.0 as nat, m.start.1 as nat)
        + " **to** "@ + clock_emoji(m.end.0 as nat) + " "@ + clock_text(
        m.end.0 as nat,
        m.end.1 as nat,
    ) + (if m.onetime {
        " (just this week)"@
    } else {
        ""@
    }) + " 🪐 "@ + m.location
}

/// Lines joined with newlines between them.
pub open spec fn join_lines(lines: Seq<Seq<char>>) -> Seq<char>
    decreases lines.len(),
{
    if lines.len() == 0 {
        Seq::empty()
    } else if lines.len() == 1 {
        lines[0]
    } else {
        join_lines(lines.drop_last()) + seq!['\n'] + lines.last()
    }
}

/// The list of the meetings of one day, one line per meeting.
pub open spec fn day_listing(s: Seq<MeetingView>, sus: Map<u128, crate::meeting::Suspended>, day: Weekday) -> Seq<char> {
    join_lines(on_day(s, day).map_values(|m: MeetingView| meeting_line(m, cancelled_in(sus, m.uuid))))
}

/// The line of the list of upcoming meetings for one meeting.
pub fn meeting_to_string(manager: &ScheduleManager, m: &ScheduledMeeting) -> (r: String)
    ensures
        r@ == meeting_line(m@, cancelled_in(manager@.suspended, m.uuid)),
{
    let extra = if m.onetime {
        " (just this week)"
    } else {
        ""
    };
    let canceled_extra = if manager.is_meeting_cancelled(m.uuid) {
        "❌️ CANCELLED "
    } else {
        "✅️ "
    };
    let mut s = canceled_extra.to_owned();
    s.append(get_clock_emoji_for_hour(m.start.0));
    s.append(" ");
    let start = to_12_hr_clock_str(m.start);
    s.append(start.as_str());
    s.append(" **to** ");
    s.append(get_clock_emoji_for_hour(m.end.0));
    s.append(" ");
    let end = to_12_hr_clock_str(m.end);
    s.append(end.as_str());
    s.append(extra);
    s.append(" 🪐 ");
    s.append(m.location.as_str());
    s
}

/// The list of the meetings of one day, as posted by the upcoming command.
pub fn get_meetings_for_day(manager: &ScheduleManager, day: Weekday) -> (r: String)
    ensures
        r@ == day_listing(manager@.schedule, manager@.suspended, day),
{
    let meetings = manager.meetings_on_day(day);
    let ghost lines = on_day(manager@.schedule, day).map_values(
        |m: MeetingView| meeting_line(m, cancelled_in(manager@.suspended, m.uuid)),
    );
    let n = meetings.len();
    let mut res = String::new();
    let mut i: usize = 0;
    proof {
        reveal_strlit("\n");
    }
    assert(lines.subrange(0, 0) =~= Seq::<Seq<char>>::empty());
    while i < n
        invariant
            n == meetings@.len() == lines.len(),
            view_meetings(meetings@) == on_day(manager@.schedule, day),
            lines == on_day(manager@.schedule, day).map_values(
                |m: MeetingView| meeting_line(m, cancelled_in(manager@.suspended, m.uuid)),
            ),
            i <= n,
            res@ == join_lines(lines.subrange(0, i as int)),
            "\n"@ == seq!['\n'],
        decreases n - i,
    {
        assert(view_meetings(meetings@)[i as int] == meetings@[i as int]@);
        let line = meeting_to_string(manager, &meetings[i]);
        assert(line@ == lines[i as int]);
        let ghost sub = lines.subrange(0, i + 1);
        assert(sub.drop_last() =~= lines.subrange(0, i as int));
        if i != 0 {
            res.append("\n");
        } else {
            assert(sub =~= seq![lines[0]]);
        }
        res.append(line.as_str());
        i = i + 1;
    }
    assert(lines.subrange(0, n as int) =~= lines);
    res
}

// ---------------------------------------------------------------------------
// Reading the options of the scheduling commands
// ---------------------------------------------------------------------------

/// Why a meeting could not be scheduled from what the user typed.
#[derive(Clone, Copy, Debug, PartialEq, Eq, Structural)]
pub enum ScheduleInputError {
    InvalidStart,
    InvalidEnd,
    InvalidWeekday,
    EndNotAfterStart,
}

/// The end of a meeting does not come after its start.
pub open spec fn end_not_after_start(start: (u32, u32), end: (u32, u32)) -> bool {
    (start.0 == end.0 && start.1 >= end.1) || start.0 > end.0
}

/// The outcome of a scheduling request, checked in the order the command
/// checks it: start time, end time, weekday, then their order.
pub open spec fn schedule_request_outcome(
    day: Seq<char>,
    start: Seq<char>,
    end: Seq<char>,
) -> Result<(Weekday, (u32, u32), (u32, u32)), ScheduleInputError> {
    match time_of_text(start) {
        None => Err(ScheduleInputError::InvalidStart),
        Some(s) => match time_of_text(end) {
            None => Err(ScheduleInputError::InvalidEnd),
            Some(e) => match weekday_named(day) {
                None => Err(ScheduleInputError::InvalidWeekday),
                Some(d) => if end_not_after_start(s, e) {
                    Err(ScheduleInputError::EndNotAfterStart)
                } else {
                    Ok((d, s, e))
                },
            },
        },
    }
}

/// A request whose day, start and end all read is refused for its times
/// exactly when the end does not come later than the start on the clock
/// (hour first, then minute); otherwise it gives that day, start and end.
pub proof fn law_schedule_request_needs_end_after_start(day: Seq<char>, start: Seq<char>, end: Seq<char>)
    requires
        weekday_named(day) is Some,
        time_of_text(start) is Some,
        time_of_text(end) is Some,
    ensures
        ({
            let d = weekday_named(day)->0;
            let s = time_of_text(start)->0;
            let e = time_of_text(end)->0;
            let later = s.0 < e.0 || (s.0 == e.0 && s.1 < e.1);
            &&& !later ==> schedule_request_outcome(day, start, end) == Err::<
                (Weekday, (u32, u32), (u32, u32)),
                ScheduleInputError,
            >(ScheduleInputError::EndNotAfterStart)
            &&& later ==> schedule_request_outcome(day, start, end) == Ok::<
                (Weekday, (u32, u32), (u32, u32)),
                ScheduleInputError,
            >((d, s, e))
        }),
{
}

/// Builds the meeting that a scheduling request describes: a new weekly or
/// one-time meeting, with no note and the day-before flag clear.
pub fn parse_schedule_request(
    day: &str,
    location: &str,
    start: &str,
    end: &str,
    onetime: bool,
    uuid: u128,
) -> (r: Result<ScheduledMeeting, ScheduleInputError>)
    ensures
        match schedule_request_outcome(day@, start@, end@) {
            Err(e) => r == Err::<ScheduledMeeting, ScheduleInputError>(e),
            Ok((d, s, e)) => r matches Ok(m) && m@ == MeetingView {
                day: d,
                location: location@,
                start: s,
                end: e,
                onetime,
                day_before_announced: false,
                note: None,
                uuid,
            },
        },
{
    let s = match parse_time(start) {
        Some(s) => s,
        None => {
            return Err(ScheduleInputError::InvalidStart);
        },
    };
    let e = match parse_time(end) {
        Some(e) => e,
        None => {
            return Err(ScheduleInputError::InvalidEnd);
        },
    };
    let d = match Weekday::parse(day) {
        Some(d) => d,
        None => {
            return Err(ScheduleInputError::InvalidWeekday);
        },
    };
    if (s.0 == e.0 && s.1 >= e.1) || (s.0 > e.0) {
        return Err(ScheduleInputError::EndNotAfterStart);
    }
    Ok(
        ScheduledMeeting {
            day: d,
            location: location.to_owned(),
            start: s,
            end: e,
            onetime,
            day_before_announced: false,
            note: None,
            uuid,
        },
    )
}

/// Why a removal request could not be read.
#[derive(Clone, Copy, Debug, PartialEq, Eq, Structural)]
pub enum RemovalInputError {
    InvalidWeekday,
    InvalidStart,
    InvalidEnd,
}

/// The slot that a removal request names, checked in the order the command
/// checks it: weekday, start time, end time.
pub open spec fn removal_request_outcome(day: Seq<char>, start: Seq<char>, end: Seq<char>) -> Result<
    (Weekday, (u32, u32), (u32, u32)),
    RemovalInputError,
> {
    match weekday_named(day) {
        None => Err(RemovalInputError::InvalidWeekday),
        Some(d) => match time_of_text(start) {
            None => Err(RemovalInputError::InvalidStart),
            Some(s) => match time_of_text(end) {
                None => Err(RemovalInputError::InvalidEnd),
                Some(e) => Ok((d, s, e)),
            },
        },
    }
}

/// Reads the day, start and end of a removal request.
pub fn parse_removal_request(day: &str, start: &str, end: &str) -> (r: Result<
    (Weekday, (u32, u32), (u32, u32)),
    RemovalInputError,
>)
    ensures
        r == removal_request_outcome(day@, start@, end@),
{
    let d = match Weekday::parse(day) {
        Some(d) => d,
        None => {
            return Err(RemovalInputError::InvalidWeekday);
        },
    };
    let s = match parse_time(start) {
        Some(s) => s,
        None => {
            return Err(RemovalInputError::InvalidStart);
        },
    };
    let e = match parse_time(end) {
        Some(e) => e,
        None => {
            return Err(RemovalInputError::InvalidEnd);
        },
    };
    Ok((d, s, e))
}

// ---------------------------------------------------------------------------
// The note command
// ---------------------------------------------------------------------------

/// What `uuid::Uuid::parse_str` followed by `Uuid::as_u128` gives for a text:
/// the identifier it writes, if it is one.
pub uninterp spec fn uuid_of_text(text: Seq<char>) -> Option<u128>;

/// `uuid::Uuid::parse_str`, read as a 128-bit number (`Uuid::as_u128`).
///
/// The result depends on the text alone; which texts it accepts (simple,
/// hyphenated, braced and URN forms of hexadecimal digits) is left to the
/// name `uuid_of_text`.
#[verifier::external_body]
fn uuid_parse_str(text: &str) -> (r: Option<u128>)
    ensures
        r == uuid_of_text(text@),
{
    match uuid::Uuid::parse_str(text) {
        Ok(u) => Some(u.as_u128()),
        Err(_) => None,
    }
}

/// Why the note command found no meeting to put the note on.
#[derive(Clone, Copy, Debug, PartialEq, Eq, Structural)]
pub enum NoteTargetError {
    InvalidUuid,
}

/// The meeting a note goes to, once the identifier the user typed (if any)
/// has been read: `Some(None)` means an identifier that does not read as
/// one, `Some(Some(u))` the identifier `u`, `None` that none was given, in
/// which case the note goes to the meeting that comes soonest.
pub fn select_note_target_parsed(
    manager: &ScheduleManager,
    given: Option<Option<u128>>,
    now: Moment,
) -> (r: Result<Option<ScheduledMeeting>, NoteTargetError>)
    ensures
        given == Some(None::<u128>) <==> r == Err::<Option<ScheduledMeeting>, NoteTargetError>(
            NoteTargetError::InvalidUuid,
        ),
        given matches Some(Some(u)) ==> (r matches Ok(found) && is_first_with_uuid(
            manager@.schedule,
            u,
            found,
        )),
        given is None ==> (r matches Ok(found) && is_soonest(manager@.schedule, now, found)),
{
    match given {
        Some(Some(u)) => Ok(manager.get_by_uuid(u)),
        Some(None) => Err(NoteTargetError::InvalidUuid),
        None => Ok(manager.get_closest_future_meeting(now)),
    }
}

/// The meeting a note goes to: the one with the identifier the user typed,
/// or, when none was typed, the meeting that comes soonest.
pub fn select_note_target(manager: &ScheduleManager, uuid_text: Option<&str>, now: Moment) -> (r:
    Result<Option<ScheduledMeeting>, NoteTargetError>)
    ensures
        ({
            let given = match uuid_text {
                Some(t) => Some(uuid_of_text(t@)),
                None => None,
            };
            &&& given == Some(None::<u128>) <==> r == Err::<Option<ScheduledMeeting>, NoteTargetError>(
                NoteTargetError::InvalidUuid,
            )
            &&& given matches Some(Some(u)) ==> (r matches Ok(found) && is_first_with_uuid(
                manager@.schedule,
                u,
                found,
            ))
            &&& given is None ==> (r matches Ok(found) && is_soonest(manager@.schedule, now, found))
        }),
{
    let given = match uuid_text {
        Some(t) => Some(uuid_parse_str(t)),
        None => None,
    };
    select_note_target_parsed(manager, given, now)
}

// ---------------------------------------------------------------------------
// The JSON embed command
// ---------------------------------------------------------------------------

/// The longest JSON text, in bytes, that the embed command takes.
pub const MAX_EMBED_JSON_BYTES: usize = 700;

/// Why the embed command refused its input before reading it.
#[derive(Clone, Copy, Debug, PartialEq, Eq, Structural)]
pub enum EmbedInputError {
    InvalidInput,
    TooLong,
}

/// Checks the option of the embed command: it must be given, and be at most
/// 700 bytes long.
pub fn check_embed_input(json: Option<&str>) -> (r: Result<(), EmbedInputError>)
    ensures
        json is None ==> r == Err::<(), EmbedInputError>(EmbedInputError::InvalidInput),
        json matches Some(s) ==> r == (if s.len() > 700 {
            Err::<(), EmbedInputError>(EmbedInputError::TooLong)
        } else {
            Ok(())
        }),
{
    match json {
        None => Err(EmbedInputError::InvalidInput),
        Some(s) => if s.len() > MAX_EMBED_JSON_BYTES {
            Err(EmbedInputError::TooLong)
        } else {
            Ok(())
        },
    }
}

} // verus!
