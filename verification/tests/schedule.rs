use engcsbot::manager::ScheduleManager;
use engcsbot::meeting::{Moment, NextOccurrence, ScheduledMeeting, SchedulingError, SuspendReason, Suspended};
use engcsbot::suspension::is_suspension_done;
use engcsbot::weekday::Weekday;

fn meeting(day: Weekday, location: &str, start: (u32, u32), end: (u32, u32), onetime: bool, uuid: u128) -> ScheduledMeeting {
    ScheduledMeeting {
        day,
        location: location.to_string(),
        start,
        end,
        onetime,
        day_before_announced: false,
        note: None,
        uuid,
    }
}

fn at(weekday: Weekday, hour: u32, minute: u32, second: u32) -> Moment {
    Moment { weekday, hour, minute, second }
}

fn locations(m: &ScheduleManager) -> Vec<String> {
    m.get_schedule().iter().map(|x| x.location.clone()).collect()
}

#[test]
fn next_occurrence_later_this_week() {
    let m = meeting(Weekday::Wed, "BMC 204", (14, 0), (15, 0), false, 1);
    assert_eq!(
        m.get_datetime_of_next(at(Weekday::Mon, 10, 0, 0)),
        NextOccurrence { days_ahead: 2, hour: 14, minute: 0, second: 0, then_add_days: 0 }
    );
    assert_eq!(m.get_datetime_of_next(at(Weekday::Thu, 10, 0, 0)).days_ahead, 6);
}

#[test]
fn next_occurrence_today_or_next_week() {
    let m = meeting(Weekday::Wed, "BMC 204", (14, 0), (15, 0), false, 1);
    assert_eq!(m.get_datetime_of_next(at(Weekday::Wed, 13, 59, 59)).then_add_days, 0);
    assert_eq!(m.get_datetime_of_next(at(Weekday::Wed, 14, 0, 0)).then_add_days, 0);
    let later = m.get_datetime_of_next(at(Weekday::Wed, 14, 0, 1));
    assert_eq!(later.days_ahead, 0);
    assert_eq!(later.then_add_days, 7);
}

#[test]
fn add_meeting_refuses_the_same_meeting_twice() {
    let mut m = ScheduleManager::new();
    assert_eq!(m.add_meeting(meeting(Weekday::Mon, "Lab", (13, 0), (14, 0), false, 1)), Ok(()));
    assert_eq!(m.meeting_count(), 1);
    // Another identifier and a note do not make it another meeting.
    let mut again = meeting(Weekday::Mon, "Lab", (13, 0), (14, 0), false, 2);
    again.note = Some("bring laptops".to_string());
    assert_eq!(m.add_meeting(again), Err(SchedulingError::MeetingAlreadyExists));
    assert_eq!(m.meeting_count(), 1);
    // A different place is another meeting.
    assert_eq!(m.add_meeting(meeting(Weekday::Mon, "Library", (13, 0), (14, 0), false, 3)), Ok(()));
    assert_eq!(locations(&m), vec!["Lab", "Library"]);
}

#[test]
fn remove_matching_swaps_the_last_meeting_into_each_gap() {
    let mut m = ScheduleManager::new();
    let slot = (Weekday::Tue, (10, 0), (11, 0));
    m.add_meeting(meeting(slot.0, "A", slot.1, slot.2, false, 1)).unwrap();
    m.add_meeting(meeting(Weekday::Tue, "B", (12, 0), (13, 0), false, 2)).unwrap();
    m.add_meeting(meeting(slot.0, "C", slot.1, slot.2, false, 3)).unwrap();
    m.add_meeting(meeting(Weekday::Fri, "D", slot.1, slot.2, false, 4)).unwrap();
    m.add_meeting(meeting(slot.0, "E", slot.1, slot.2, true, 5)).unwrap();
    m.cancel_meeting(1, 100);
    m.cancel_meeting(2, 100);
    m.set_already_announced(3, 100);
    assert_eq!(m.remove_matching(slot.0, slot.1, slot.2, false), 2);
    assert_eq!(locations(&m), vec!["D", "B", "E"]);
    assert!(!m.is_already_announced(1));
    assert!(m.is_already_announced(2));
    assert!(!m.is_already_announced(3));
}

#[test]
fn remove_matching_without_a_match_changes_nothing() {
    let mut m = ScheduleManager::new();
    m.add_meeting(meeting(Weekday::Tue, "A", (10, 0), (11, 0), false, 1)).unwrap();
    assert_eq!(m.remove_matching(Weekday::Tue, (10, 0), (11, 0), true), 0);
    assert_eq!(locations(&m), vec!["A"]);
}

#[test]
fn suspension_state_round_trip() {
    let mut m = ScheduleManager::new();
    assert!(!m.is_already_announced(7));
    assert_eq!(m.get_suspension_restore_timestamp(7), -1);
    m.set_already_announced(7, 1_700_000_000);
    assert!(m.is_already_announced(7));
    assert!(!m.is_meeting_cancelled(7));
    assert_eq!(m.get_suspension_restore_timestamp(7), 1_700_000_000);
    m.cancel_meeting(7, 1_800_000_000);
    assert!(m.is_meeting_cancelled(7));
    assert_eq!(m.get_suspension_restore_timestamp(7), 1_800_000_000);
    assert_eq!(
        m.get_suspension_map().to_vec(),
        vec![(7, Suspended { reason: SuspendReason::Cancelled, reschedule: 1_800_000_000 })]
    );
    m.unsuspend(7);
    assert!(!m.is_already_announced(7));
    assert!(!m.is_meeting_cancelled(7));
    assert_eq!(m.get_suspension_restore_timestamp(7), -1);
}

#[test]
fn suspension_done_only_after_its_time() {
    assert!(!is_suspension_done(-1, 5));
    assert!(!is_suspension_done(100, 100));
    assert!(is_suspension_done(100, 101));
    assert!(!is_suspension_done(100, 99));
}

#[test]
fn set_schedule_replaces_the_meetings() {
    let mut m = ScheduleManager::new();
    m.add_meeting(meeting(Weekday::Tue, "A", (10, 0), (11, 0), false, 1)).unwrap();
    m.set_already_announced(1, 10);
    m.set_schedule(vec![meeting(Weekday::Sat, "Z", (9, 0), (10, 0), false, 9)]);
    assert_eq!(locations(&m), vec!["Z"]);
    assert!(m.is_already_announced(1));
}

#[test]
fn meetings_on_day_keeps_schedule_order() {
    let mut m = ScheduleManager::new();
    m.add_meeting(meeting(Weekday::Tue, "A", (10, 0), (11, 0), false, 1)).unwrap();
    m.add_meeting(meeting(Weekday::Wed, "B", (10, 0), (11, 0), false, 2)).unwrap();
    m.add_meeting(meeting(Weekday::Tue, "C", (8, 0), (9, 0), false, 3)).unwrap();
    let tue: Vec<String> = m.meetings_on_day(Weekday::Tue).iter().map(|x| x.location.clone()).collect();
    assert_eq!(tue, vec!["A", "C"]);
    assert!(m.meetings_on_day(Weekday::Sun).is_empty());
}

#[test]
fn get_by_uuid_and_set_note() {
    let mut m = ScheduleManager::new();
    m.add_meeting(meeting(Weekday::Tue, "A", (10, 0), (11, 0), false, 1)).unwrap();
    m.add_meeting(meeting(Weekday::Wed, "B", (10, 0), (11, 0), false, 2)).unwrap();
    assert_eq!(m.get_by_uuid(2).map(|x| x.location), Some("B".to_string()));
    assert!(m.get_by_uuid(3).is_none());
    assert!(m.set_note(2, "room changed".to_string()));
    assert_eq!(m.get_schedule()[1].note.as_deref(), Some("room changed"));
    assert!(m.get_schedule()[0].note.is_none());
    assert!(!m.set_note(3, "nothing".to_string()));
}

#[test]
fn closest_future_meeting_comes_soonest() {
    let mut m = ScheduleManager::new();
    m.add_meeting(meeting(Weekday::Fri, "Friday", (10, 0), (11, 0), false, 1)).unwrap();
    m.add_meeting(meeting(Weekday::Tue, "Tuesday", (10, 0), (11, 0), false, 2)).unwrap();
    m.add_meeting(meeting(Weekday::Wed, "Broken", (10, 60), (11, 0), false, 3)).unwrap();
    let now = at(Weekday::Tue, 9, 0, 0);
    assert_eq!(m.get_closest_future_meeting(now).map(|x| x.uuid), Some(2));
    // Just after Tuesday's start, Friday comes first.
    let now = at(Weekday::Tue, 10, 0, 1);
    assert_eq!(m.get_closest_future_meeting(now).map(|x| x.uuid), Some(1));
    let mut empty = ScheduleManager::new();
    assert!(empty.get_closest_future_meeting(now).is_none());
    empty.add_meeting(meeting(Weekday::Wed, "Broken", (24, 0), (25, 0), false, 3)).unwrap();
    assert!(empty.get_closest_future_meeting(now).is_none());
}

#[test]
fn closest_future_meeting_prefers_the_first_on_ties() {
    let mut m = ScheduleManager::new();
    m.add_meeting(meeting(Weekday::Tue, "A", (10, 0), (11, 0), false, 1)).unwrap();
    m.add_meeting(meeting(Weekday::Tue, "B", (10, 0), (12, 0), false, 2)).unwrap();
    assert_eq!(m.get_closest_future_meeting(at(Weekday::Mon, 0, 0, 0)).map(|x| x.uuid), Some(1));
}

#[test]
fn calling_off_a_day_leaves_one_time_meetings_alone() {
    let mut m = ScheduleManager::new();
    m.add_meeting(meeting(Weekday::Tue, "A", (10, 0), (11, 0), false, 1)).unwrap();
    m.add_meeting(meeting(Weekday::Tue, "Once", (12, 0), (13, 0), true, 2)).unwrap();
    m.add_meeting(meeting(Weekday::Wed, "B", (10, 0), (11, 0), false, 3)).unwrap();
    m.add_meeting(meeting(Weekday::Tue, "C", (8, 0), (9, 0), false, 4)).unwrap();
    let ids: Vec<u128> = m.meetings_to_cancel(Weekday::Tue).iter().map(|x| x.uuid).collect();
    assert_eq!(ids, vec![1, 4]);
    assert!(m.meetings_to_cancel(Weekday::Sun).is_empty());
}

#[test]
fn called_off_meeting_comes_back_the_day_after() {
    let m = meeting(Weekday::Wed, "Lab", (14, 30), (15, 0), false, 1);
    // Monday: two days to Wednesday, back on Thursday.
    assert_eq!(m.days_until_restored(at(Weekday::Mon, 9, 0, 0)), 3);
    // Wednesday before the start: back tomorrow.
    assert_eq!(m.days_until_restored(at(Weekday::Wed, 14, 0, 0)), 1);
    // Wednesday after the start: next week's meeting, back the Thursday after.
    assert_eq!(m.days_until_restored(at(Weekday::Wed, 14, 30, 1)), 8);
    // Thursday: next Wednesday is six days ahead.
    assert_eq!(m.days_until_restored(at(Weekday::Thu, 0, 0, 0)), 7);
}

#[test]
fn saved_suspensions_come_back_when_live_and_scheduled() {
    let mut old = ScheduleManager::new();
    old.add_meeting(meeting(Weekday::Tue, "A", (10, 0), (11, 0), false, 1)).unwrap();
    old.add_meeting(meeting(Weekday::Wed, "B", (10, 0), (11, 0), false, 2)).unwrap();
    old.cancel_meeting(1, 500);
    old.set_already_announced(2, 50);
    old.set_already_announced(9, 900);
    let saved = old.get_suspension_map().to_vec();

    let mut fresh = ScheduleManager::new();
    fresh.set_schedule(vec![
        meeting(Weekday::Tue, "A", (10, 0), (11, 0), false, 1),
        meeting(Weekday::Wed, "B", (10, 0), (11, 0), false, 2),
    ]);
    let count = fresh.restore_suspensions(&saved, 100);
    assert_eq!(count, 1);
    assert!(fresh.is_meeting_cancelled(1));
    assert_eq!(fresh.get_suspension_restore_timestamp(1), 500);
    assert!(!fresh.is_already_announced(2));
    assert!(!fresh.is_already_announced(9));
}
