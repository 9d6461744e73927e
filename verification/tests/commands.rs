use engcsbot::commands::{
    check_embed_input, get_info, get_meetings_for_day, is_user_admin, may_shutdown, meeting_to_string,
    parse_removal_request, parse_schedule_request, select_note_target, select_note_target_parsed,
    EmbedInputError, NoteTargetError, RemovalInputError, ScheduleInputError,
};
use engcsbot::manager::ScheduleManager;
use engcsbot::meeting::{Moment, ScheduledMeeting};
use engcsbot::weekday::Weekday;

fn meeting(day: Weekday, location: &str, start: (u32, u32), end: (u32, u32), onetime: bool, uuid: u128) -> ScheduledMeeting {
    ScheduledMeeting {
        day,
        location: location.to_string(),
        start,
        end,
        onetime,
        day_before_announced: false,
        note: None,
        uuid,
    }
}

#[test]
fn admin_bit_decides_admin() {
    assert!(is_user_admin(Some(8)));
    assert!(is_user_admin(Some(0xff)));
    assert!(!is_user_admin(Some(0x10)));
    assert!(!is_user_admin(Some(0)));
    assert!(!is_user_admin(None));
}

#[test]
fn shutdown_allowed_for_developer_or_admin() {
    assert!(may_shutdown(329319801589596160, false));
    assert!(may_shutdown(1, true));
    assert!(!may_shutdown(1, false));
}

#[test]
fn info_message_names_the_version() {
    let info = get_info("0.3.1");
    assert!(info.starts_with("\nEngCS Bot 0.3.1\n\nMade by <@329319801589596160>\n"));
    assert!(info.contains("Github: <https://github.com/MPC-ECS-Club/engcsbot>"));
    assert!(info.ends_with("or open an issue on the github page.\n"));
}

#[test]
fn meeting_lines_show_times_place_and_state() {
    let mut m = ScheduleManager::new();
    m.add_meeting(meeting(Weekday::Mon, "BMC 204", (13, 30), (15, 0), false, 1)).unwrap();
    m.add_meeting(meeting(Weekday::Mon, "STEM Center", (9, 0), (10, 15), true, 2)).unwrap();
    m.cancel_meeting(2, 10);
    let s = m.get_schedule();
    assert_eq!(meeting_to_string(&m, &s[0]), "✅️ 🕐️ 01:30pm **to** 🕒️ 03:00pm 🪐 BMC 204");
    assert_eq!(
        meeting_to_string(&m, &s[1]),
        "❌️ CANCELLED 🕘️ 09:00am **to** 🕙️ 10:15am (just this week) 🪐 STEM Center"
    );
    assert_eq!(
        get_meetings_for_day(&m, Weekday::Mon),
        "✅️ 🕐️ 01:30pm **to** 🕒️ 03:00pm 🪐 BMC 204\n❌️ CANCELLED 🕘️ 09:00am **to** 🕙️ 10:15am (just this week) 🪐 STEM Center"
    );
    assert_eq!(get_meetings_for_day(&m, Weekday::Tue), "");
}

#[test]
fn schedule_request_builds_a_fresh_meeting() {
    let m = parse_schedule_request("monday", "BMC 204", "1:30pm", "3:00pm", true, 42).unwrap();
    assert_eq!(m.day, Weekday::Mon);
    assert_eq!(m.location, "BMC 204");
    assert_eq!(m.start, (13, 30));
    assert_eq!(m.end, (15, 0));
    assert!(m.onetime);
    assert!(!m.day_before_announced);
    assert!(m.note.is_none());
    assert_eq!(m.uuid, 42);
}

#[test]
fn schedule_request_errors_in_order() {
    assert_eq!(
        parse_schedule_request("someday", "x", "1:30", "3:00", false, 1).unwrap_err(),
        ScheduleInputError::InvalidStart
    );
    assert_eq!(
        parse_schedule_request("someday", "x", "1:30pm", "3:00", false, 1).unwrap_err(),
        ScheduleInputError::InvalidEnd
    );
    assert_eq!(
        parse_schedule_request("someday", "x", "1:30pm", "3:00pm", false, 1).unwrap_err(),
        ScheduleInputError::InvalidWeekday
    );
    assert_eq!(
        parse_schedule_request("fri", "x", "3:00pm", "3:00pm", false, 1).unwrap_err(),
        ScheduleInputError::EndNotAfterStart
    );
    assert_eq!(
        parse_schedule_request("fri", "x", "3:00pm", "1:00pm", false, 1).unwrap_err(),
        ScheduleInputError::EndNotAfterStart
    );
}

#[test]
fn removal_request_errors_in_order() {
    assert_eq!(parse_removal_request("x", "bad", "bad"), Err(RemovalInputError::InvalidWeekday));
    assert_eq!(parse_removal_request("Tue", "bad", "bad"), Err(RemovalInputError::InvalidStart));
    assert_eq!(parse_removal_request("Tue", "1:00pm", "bad"), Err(RemovalInputError::InvalidEnd));
    assert_eq!(
        parse_removal_request("Tue", "1:00pm", "2:00pm"),
        Ok((Weekday::Tue, (13, 0), (14, 0)))
    );
}

#[test]
fn note_target_by_identifier_or_soonest() {
    let mut m = ScheduleManager::new();
    let id: u128 = 0x67e5504410b1426f9247bb680e5fe0c8;
    m.add_meeting(meeting(Weekday::Fri, "Later", (10, 0), (11, 0), false, id)).unwrap();
    m.add_meeting(meeting(Weekday::Tue, "Sooner", (10, 0), (11, 0), false, 5)).unwrap();
    let now = Moment { weekday: Weekday::Mon, hour: 12, minute: 0, second: 0 };
    let by_id = select_note_target(&m, Some("67e55044-10b1-426f-9247-bb680e5fe0c8"), now).unwrap();
    assert_eq!(by_id.map(|x| x.location), Some("Later".to_string()));
    let simple = select_note_target(&m, Some("67e5504410b1426f9247bb680e5fe0c8"), now).unwrap();
    assert_eq!(simple.map(|x| x.uuid), Some(id));
    let unknown = select_note_target(&m, Some("00000000-0000-0000-0000-000000000001"), now).unwrap();
    assert!(unknown.is_none());
    assert_eq!(select_note_target(&m, Some("not a uuid"), now).unwrap_err(), NoteTargetError::InvalidUuid);
    let soonest = select_note_target(&m, None, now).unwrap();
    assert_eq!(soonest.map(|x| x.location), Some("Sooner".to_string()));
    assert_eq!(select_note_target_parsed(&m, Some(Some(5)), now).unwrap().map(|x| x.uuid), Some(5));
    assert!(select_note_target_parsed(&m, Some(None), now).is_err());
}

#[test]
fn embed_input_must_be_given_and_short() {
    assert_eq!(check_embed_input(None), Err(EmbedInputError::InvalidInput));
    let long = "x".repeat(701);
    assert_eq!(check_embed_input(Some(&long)), Err(EmbedInputError::TooLong));
    let limit = "x".repeat(700);
    assert_eq!(check_embed_input(Some(&limit)), Ok(()));
    // The limit counts bytes, not characters.
    let wide = "é".repeat(351);
    assert_eq!(check_embed_input(Some(&wide)), Err(EmbedInputError::TooLong));
}
