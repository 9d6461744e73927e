use engcsbot::manager::{Notice, ScheduleManager};
use engcsbot::meeting::{Moment, ScheduledMeeting, SuspendReason, Suspended};
use engcsbot::weekday::Weekday;

fn meeting(day: Weekday, location: &str, start: (u32, u32), end: (u32, u32), onetime: bool, uuid: u128) -> ScheduledMeeting {
    ScheduledMeeting {
        day,
        location: location.to_string(),
        start,
        end,
        onetime,
        day_before_announced: false,
        note: None,
        uuid,
    }
}

fn at(weekday: Weekday, hour: u32, minute: u32) -> Moment {
    Moment { weekday, hour, minute, second: 0 }
}

fn posted(n: &Notice) -> (bool, u128) {
    match n {
        Notice::DayBefore(m) => (true, m.uuid),
        Notice::Meeting(m) => (false, m.uuid),
    }
}

#[test]
fn day_before_notice_from_nine_oclock() {
    let mut m = ScheduleManager::new();
    m.add_meeting(meeting(Weekday::Wed, "Lab", (14, 0), (15, 0), false, 1)).unwrap();
    let r = m.announcement_round(at(Weekday::Tue, 8, 59), &vec![Some(0)]);
    assert!(r.notices.is_empty());
    assert!(!r.save_meetings);
    let r = m.announcement_round(at(Weekday::Tue, 9, 0), &vec![Some(0)]);
    assert_eq!(r.notices.iter().map(posted).collect::<Vec<_>>(), vec![(true, 1)]);
    assert!(r.save_meetings);
    assert!(m.get_schedule()[0].day_before_announced);
    // Posted once only.
    let r = m.announcement_round(at(Weekday::Tue, 10, 0), &vec![Some(0)]);
    assert!(r.notices.is_empty());
}

#[test]
fn weekly_meeting_announced_in_the_hour_before_and_then_suspended() {
    let mut m = ScheduleManager::new();
    let mut w = meeting(Weekday::Wed, "Lab", (14, 30), (15, 30), false, 1);
    w.note = Some("pizza".to_string());
    w.day_before_announced = true;
    m.add_meeting(w).unwrap();
    let r = m.announcement_round(at(Weekday::Wed, 13, 29), &vec![Some(500)]);
    assert!(r.notices.is_empty());
    let r = m.announcement_round(at(Weekday::Wed, 13, 30), &vec![Some(500)]);
    assert_eq!(r.notices.len(), 1);
    match &r.notices[0] {
        Notice::Meeting(x) => {
            assert_eq!(x.note.as_deref(), Some("pizza"));
            assert!(!x.day_before_announced);
        }
        _ => panic!("expected an announcement"),
    }
    assert!(r.save_meetings);
    assert_eq!(r.stopped_at, None);
    assert!(m.get_schedule()[0].note.is_none());
    assert!(!m.get_schedule()[0].day_before_announced);
    assert_eq!(
        m.get_suspension_map().get(1),
        Some(Suspended { reason: SuspendReason::AlreadyAnnounced, reschedule: 500 })
    );
    let r = m.announcement_round(at(Weekday::Wed, 13, 45), &vec![Some(500)]);
    assert!(r.notices.is_empty());
}

#[test]
fn one_time_meeting_leaves_the_schedule_once_announced() {
    let mut m = ScheduleManager::new();
    m.add_meeting(meeting(Weekday::Wed, "Once", (10, 0), (11, 0), true, 1)).unwrap();
    m.add_meeting(meeting(Weekday::Thu, "Other", (10, 0), (11, 0), false, 2)).unwrap();
    m.add_meeting(meeting(Weekday::Fri, "Third", (10, 0), (11, 0), false, 3)).unwrap();
    let r = m.announcement_round(at(Weekday::Wed, 9, 5), &vec![Some(1100), Some(1200), Some(1300)]);
    assert_eq!(r.notices.iter().map(posted).collect::<Vec<_>>(), vec![(false, 1), (true, 2)]);
    assert_eq!(r.stopped_at, None);
    let left: Vec<u128> = m.get_schedule().iter().map(|x| x.uuid).collect();
    assert_eq!(left, vec![3, 2]);
    assert!(!m.is_already_announced(1));
}

#[test]
fn midnight_meeting_is_announced_in_hour_zero() {
    let mut m = ScheduleManager::new();
    m.add_meeting(meeting(Weekday::Mon, "Night", (0, 30), (1, 0), false, 1)).unwrap();
    let r = m.announcement_round(at(Weekday::Mon, 0, 31), &vec![Some(9)]);
    assert_eq!(r.notices.len(), 1);
}

#[test]
fn suspended_meeting_is_not_announced() {
    let mut m = ScheduleManager::new();
    m.add_meeting(meeting(Weekday::Wed, "Lab", (14, 0), (15, 0), false, 1)).unwrap();
    m.cancel_meeting(1, 1000);
    let r = m.announcement_round(at(Weekday::Wed, 13, 10), &vec![Some(5)]);
    assert!(r.notices.is_empty());
    assert!(m.is_meeting_cancelled(1));
}

#[test]
fn round_stops_where_no_end_time_exists() {
    let mut m = ScheduleManager::new();
    m.add_meeting(meeting(Weekday::Wed, "A", (14, 0), (15, 0), false, 1)).unwrap();
    let mut b = meeting(Weekday::Wed, "B", (14, 0), (15, 60), false, 2);
    b.note = Some("kept".to_string());
    b.day_before_announced = true;
    m.add_meeting(b).unwrap();
    m.add_meeting(meeting(Weekday::Wed, "C", (14, 0), (16, 0), true, 3)).unwrap();
    let r = m.announcement_round(at(Weekday::Wed, 13, 0), &vec![Some(7), None, Some(9)]);
    assert_eq!(r.stopped_at, Some(1));
    assert_eq!(r.notices.iter().map(posted).collect::<Vec<_>>(), vec![(false, 1)]);
    assert!(m.is_already_announced(1));
    assert!(!m.is_already_announced(2));
    assert_eq!(m.meeting_count(), 3);
    let b = &m.get_schedule()[1];
    assert_eq!(b.note.as_deref(), Some("kept"));
    assert!(!b.day_before_announced);
}

#[test]
fn one_time_meeting_without_times_today_stops_the_round() {
    let mut m = ScheduleManager::new();
    m.add_meeting(meeting(Weekday::Wed, "C", (24, 0), (16, 0), true, 3)).unwrap();
    let r = m.announcement_round(at(Weekday::Wed, 23, 0), &vec![None]);
    assert_eq!(r.stopped_at, Some(0));
    assert!(r.notices.is_empty());
    assert_eq!(m.meeting_count(), 1);
}

#[test]
fn cancelled_meeting_gets_no_notice_for_tomorrow() {
    let mut m = ScheduleManager::new();
    m.add_meeting(meeting(Weekday::Mon, "Lab", (14, 0), (15, 0), false, 1)).unwrap();
    m.add_meeting(meeting(Weekday::Mon, "Hall", (16, 0), (17, 0), false, 2)).unwrap();
    m.cancel_meeting(1, 1_000_000);
    let r = m.announcement_round(at(Weekday::Sun, 9, 0), &vec![Some(5), Some(6)]);
    assert_eq!(r.notices.iter().map(posted).collect::<Vec<_>>(), vec![(true, 2)]);
    assert!(!m.get_schedule()[0].day_before_announced);
    assert!(m.get_schedule()[1].day_before_announced);
}

#[test]
fn reset_round_lifts_lapsed_suspensions_and_stale_flags() {
    let mut m = ScheduleManager::new();
    let mut a = meeting(Weekday::Wed, "A", (14, 0), (15, 0), false, 1);
    a.day_before_announced = true;
    let mut b = meeting(Weekday::Thu, "B", (14, 0), (15, 0), false, 2);
    b.day_before_announced = true;
    m.add_meeting(a).unwrap();
    m.add_meeting(b).unwrap();
    m.set_already_announced(1, 100);
    m.cancel_meeting(2, 300);
    m.cancel_meeting(9, 50);
    // Tuesday is the day before A, not before B.
    assert_eq!(m.reset_announced_state(Weekday::Tue, 200), (true, true));
    assert!(m.get_schedule()[0].day_before_announced);
    assert!(!m.get_schedule()[1].day_before_announced);
    assert!(!m.is_already_announced(1));
    assert!(m.is_meeting_cancelled(2));
    // Suspensions of meetings off the schedule are left alone.
    assert!(m.is_meeting_cancelled(9));
    assert_eq!(m.reset_announced_state(Weekday::Tue, 250), (false, false));
}

#[test]
fn restore_takes_back_live_suspensions_of_scheduled_meetings() {
    let mut m = ScheduleManager::new();
    m.add_meeting(meeting(Weekday::Wed, "A", (14, 0), (15, 0), false, 1)).unwrap();
    m.add_meeting(meeting(Weekday::Thu, "B", (14, 0), (15, 0), false, 2)).unwrap();
    let stored = vec![
        (1, Suspended { reason: SuspendReason::Cancelled, reschedule: 500 }),
        (2, Suspended { reason: SuspendReason::AlreadyAnnounced, reschedule: 50 }),
        (3, Suspended { reason: SuspendReason::Cancelled, reschedule: 500 }),
        (2, Suspended { reason: SuspendReason::Cancelled, reschedule: -1 }),
    ];
    assert_eq!(m.restore_suspensions(&stored, 100), 2);
    assert!(m.is_meeting_cancelled(1));
    assert_eq!(m.get_suspension_restore_timestamp(2), -1);
    assert!(m.is_meeting_cancelled(2));
    assert!(!m.is_already_announced(3));
}
