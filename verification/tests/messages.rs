use engcsbot::manager::ScheduleManager;
use engcsbot::meeting::{Moment, ScheduledMeeting};
use engcsbot::messages::{
    announce_content, announce_plan, announcement_text, day_before_text, embed_plan, schedule_reply,
    EmbedFieldSpec, EmbedPart, EmbedSpec,
};
use engcsbot::weekday::Weekday;

fn meeting(day: Weekday, location: &str, start: (u32, u32), end: (u32, u32), onetime: bool, uuid: u128) -> ScheduledMeeting {
    ScheduledMeeting {
        day,
        location: location.to_string(),
        start,
        end,
        onetime,
        day_before_announced: false,
        note: None,
        uuid,
    }
}

fn describe(p: &EmbedPart) -> String {
    match p {
        EmbedPart::Title(t) => format!("title:{t}"),
        EmbedPart::Color(c) => format!("color:{c}"),
        EmbedPart::Description(t) => format!("desc:{t}"),
        EmbedPart::Thumbnail(t) => format!("thumb:{t}"),
        EmbedPart::Image(t) => format!("image:{t}"),
        EmbedPart::Footer(t, i) => format!("footer:{t}:{i:?}"),
        EmbedPart::Field(a, b, c) => format!("field:{a}:{b}:{c}"),
        EmbedPart::Author(a, b) => format!("author:{a}:{b}"),
    }
}

#[test]
fn embed_plan_lists_given_parts_in_order() {
    let spec = EmbedSpec {
        title: "T".to_string(),
        description: Some("D".to_string()),
        fields: vec![
            EmbedFieldSpec { title: "a".to_string(), description: "1".to_string(), inline: None },
            EmbedFieldSpec { title: "b".to_string(), description: "2".to_string(), inline: Some(true) },
        ],
        color: Some(255),
        footer: Some(("F".to_string(), Some("icon".to_string()))),
        thumbnail: None,
        image: Some("img".to_string()),
    };
    let plan: Vec<String> = embed_plan(&spec).iter().map(describe).collect();
    assert_eq!(
        plan,
        vec![
            "title:T",
            "color:255",
            "desc:D",
            "image:img",
            "footer:F:Some(\"icon\")",
            "field:a:1:false",
            "field:b:2:true",
        ]
    );
}

#[test]
fn embed_plan_of_a_bare_title() {
    let spec = EmbedSpec {
        title: "Only".to_string(),
        description: None,
        fields: vec![],
        color: None,
        footer: None,
        thumbnail: None,
        image: None,
    };
    let plan: Vec<String> = embed_plan(&spec).iter().map(describe).collect();
    assert_eq!(plan, vec!["title:Only"]);
}

#[test]
fn announcement_carries_times_place_and_note() {
    let mut m = meeting(Weekday::Wed, "BMC 204", (14, 0), (15, 30), false, 1);
    let t = announcement_text(&m, 1_700_000_000, -5);
    assert_eq!(t.title, "🎉 Meeting Alert 🚨");
    assert_eq!(t.description, "There will be a meeting today <t:1700000000:R>");
    assert_eq!(t.location, "BMC 204");
    assert_eq!(t.until_label, "Until 🕒️");
    assert_eq!(t.until_value, "<t:-5:t>");
    assert!(t.note.is_none());
    assert!(t.footer.starts_with("Please react to this message if you plan on attending!\nNote this message was automated"));
    m.note = Some("bring laptops".to_string());
    let t = announcement_text(&m, i64::MIN, 0);
    assert_eq!(t.description, "There will be a meeting today <t:-9223372036854775808:R>");
    assert_eq!(t.until_value, "<t:0:t>");
    assert_eq!(t.note.as_deref(), Some("bring laptops"));
}

#[test]
fn day_before_notice_names_day_place_and_time() {
    let m = meeting(Weekday::Thu, "STEM Center", (13, 5), (14, 0), false, 1);
    let t = day_before_text(&m);
    assert_eq!(t.title, "Meeting Notice 📒");
    assert_eq!(t.description, "This is a notice for an upcoming meeting ***tomorrow*** (Thu).");
    assert_eq!(t.location, "STEM Center");
    assert_eq!(t.time_label, "Time 🕐️");
    assert_eq!(t.time_value, "01:05pm");
}

#[test]
fn schedule_reply_repeats_the_meeting() {
    let m = meeting(Weekday::Mon, "Lab", (9, 5), (10, 30), true, 1);
    assert_eq!(
        schedule_reply(&m),
        "Scheduled a meeting for Mon at 09:05 until 10:30. Location: Lab. Only this week? true"
    );
}

#[test]
fn announce_mentions_the_role_and_builds_the_embed() {
    assert_eq!(announce_content(Some(42)), "<@&42>");
    assert_eq!(announce_content(None), "");
    let plan: Vec<String> = announce_plan("ann", "url", "Hi", "Body", Some("foot")).iter().map(describe).collect();
    assert_eq!(plan, vec!["author:ann:url", "title:Hi", "desc:Body", "footer:foot:None"]);
    let plan: Vec<String> = announce_plan("ann", "", "Hi", "Body", None).iter().map(describe).collect();
    assert_eq!(plan, vec!["author:ann:", "title:Hi", "desc:Body"]);
}

#[test]
fn saved_suspensions_hold_each_meeting_once() {
    let mut m = ScheduleManager::new();
    m.set_already_announced(1, 10);
    m.cancel_meeting(1, 20);
    m.set_already_announced(2, 30);
    m.unsuspend(2);
    m.set_already_announced(2, 40);
    let mut ids: Vec<u128> = m.get_suspension_map().to_vec().iter().map(|e| e.0).collect();
    ids.sort();
    assert_eq!(ids, vec![1, 2]);
}

#[test]
fn cancelled_meeting_stays_quiet_until_its_suspension_lapses() {
    let mut m = ScheduleManager::new();
    m.add_meeting(meeting(Weekday::Mon, "Lab", (14, 0), (15, 0), false, 1)).unwrap();
    m.cancel_meeting(1, 1_000);
    let sunday = Moment { weekday: Weekday::Sun, hour: 9, minute: 0, second: 0 };
    let monday = Moment { weekday: Weekday::Mon, hour: 13, minute: 0, second: 0 };
    assert!(m.announcement_round(sunday, &vec![Some(900)]).notices.is_empty());
    m.reset_announced_state(Weekday::Sun, 500);
    assert!(m.announcement_round(monday, &vec![Some(900)]).notices.is_empty());
    m.reset_announced_state(Weekday::Mon, 1_000);
    assert!(m.is_meeting_cancelled(1));
    m.reset_announced_state(Weekday::Mon, 1_001);
    assert!(!m.is_meeting_cancelled(1));
    assert_eq!(m.announcement_round(monday, &vec![Some(5_000)]).notices.len(), 1);
}
