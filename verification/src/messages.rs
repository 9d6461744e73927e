use vstd::prelude::*;

use crate::clock::{
    clock_emoji, clock_text, decimal, decimal_u64_string, get_clock_emoji_for_hour,
    signed_decimal, signed_decimal_string, to_12_hr_clock_str, two_digit_string, two_digits,
};
use crate::meeting::{opt_text, MeetingView, ScheduledMeeting};
use crate::weekday::shown_day_name;

verus! {

// ---------------------------------------------------------------------------
// Embeds described part by part
// ---------------------------------------------------------------------------

/// One field of an embed as the embed command reads it.
pub struct EmbedFieldSpec {
    pub title: String,
    pub description: String,
    /// Whether the field sits beside the previous one (no when not given).
    pub inline: Option<bool>,
}

/// An embed as the embed command reads it: a title, optional parts, fields.
pub struct EmbedSpec {
    pub title: String,
    pub description: Option<String>,
    pub fields: Vec<EmbedFieldSpec>,
    /// The colour as a 24-bit RGB number.
    pub color: Option<u32>,
    /// The footer's text and, optionally, the address of its icon.
    pub footer: Option<(String, Option<String>)>,
    pub thumbnail: Option<String>,
    pub image: Option<String>,
}

/// One step of building an embed.
#[derive(Debug)]
pub enum EmbedPart {
    Title(String),
    Color(u32),
    Description(String),
    Thumbnail(String),
    Image(String),
    /// Footer text and optional icon address.
    Footer(String, Option<String>),
    /// Field title, field text, and whether it is inline.
    Field(String, String, bool),
    /// Author name and the address of the author's picture.
    Author(String, String),
}

/// The value of an embed field.
pub struct EmbedFieldView {
    pub title: Seq<char>,
    pub description: Seq<char>,
    pub inline: Option<bool>,
}

/// The value of an embed description.
pub struct EmbedSpecView {
    pub title: Seq<char>,
    pub description: Option<Seq<char>>,
    pub fields: Seq<EmbedFieldView>,
    pub color: Option<u32>,
    pub footer: Option<(Seq<char>, Option<Seq<char>>)>,
    pub thumbnail: Option<Seq<char>>,
    pub image: Option<Seq<char>>,
}

/// The value of a building step.
pub enum EmbedPartView {
    Title(Seq<char>),
    Color(u32),
    Description(Seq<char>),
    Thumbnail(Seq<char>),
    Image(Seq<char>),
    Footer(Seq<char>, Option<Seq<char>>),
    Field(Seq<char>, Seq<char>, bool),
    Author(Seq<char>, Seq<char>),
}

impl View for EmbedFieldSpec {
    type V = EmbedFieldView;

    open spec fn view(&self) -> EmbedFieldView {
        EmbedFieldView { title: self.title@, description: self.description@, inline: self.inline }
    }
}

/// The value of an optional footer.
pub open spec fn footer_view(f: Option<(String, Option<String>)>) -> Option<(Seq<char>, Option<Seq<char>>)> {
    match f {
        Some((t, i)) => Some((t@, opt_text(i))),
        None => None,
    }
}

impl View for EmbedSpec {
    type V = EmbedSpecView;

    open spec fn view(&self) -> EmbedSpecView {
        EmbedSpecView {
            title: self.title@,
            description: opt_text(self.description),
            fields: self.fields@.map_values(|f: EmbedFieldSpec| f@),
            color: self.color,
            footer: footer_view(self.footer),
            thumbnail: opt_text(self.thumbnail),
            image: opt_text(self.image),
        }
    }
}

impl View for EmbedPart {
    type V = EmbedPartView;

    open spec fn view(&self) -> EmbedPartView {
        match self {
            EmbedPart::Title(t) => EmbedPartView::Title(t@),
            EmbedPart::Color(c) => EmbedPartView::Color(*c),
            EmbedPart::Description(t) => EmbedPartView::Description(t@),
            EmbedPart::Thumbnail(t) => EmbedPartView::Thumbnail(t@),
            EmbedPart::Image(t) => EmbedPartView::Image(t@),
            EmbedPart::Footer(t, i) => EmbedPartView::Footer(t@, opt_text(*i)),
            EmbedPart::Field(a, b, c) => EmbedPartView::Field(a@, b@, *c),
            EmbedPart::Author(a, b) => EmbedPartView::Author(a@, b@),
        }
    }
}

/// The one-step sequence for an optional part, or nothing.
pub open spec fn opt_part<A>(o: Option<A>, f: spec_fn(A) -> EmbedPartView) -> Seq<EmbedPartView> {
    match o {
        Some(a) => seq![f(a)],
        None => Seq::empty(),
    }
}

/// The building step of a field: not inline unless it says so.
pub open spec fn field_part(f: EmbedFieldView) -> EmbedPartView {
    EmbedPartView::Field(
        f.title,
        f.description,
        match f.inline {
            Some(b) => b,
            None => false,
        },
    )
}

/// How an embed is built from its description: the title; then the colour,
/// the description, the thumbnail, the image and the footer, each exactly
/// when it is given; then one field per field entry, in order.
pub open spec fn embed_plan_of(e: EmbedSpecView) -> Seq<EmbedPartView> {
    seq![EmbedPartView::Title(e.title)] + opt_part(e.color, |c: u32| EmbedPartView::Color(c))
        + opt_part(e.description, |t: Seq<char>| EmbedPartView::Description(t)) + opt_part(
        e.thumbnail,
        |t: Seq<char>| EmbedPartView::Thumbnail(t),
    ) + opt_part(e.image, |t: Seq<char>| EmbedPartView::Image(t)) + opt_part(
        e.footer,
        |f: (Seq<char>, Option<Seq<char>>)| EmbedPartView::Footer(f.0, f.1),
    ) + e.fields.map_values(|f: EmbedFieldView| field_part(f))
}

/// The values of a list of building steps.
pub open spec fn parts_view(v: Seq<EmbedPart>) -> Seq<EmbedPartView> {
    v.map_values(|p: EmbedPart| p@)
}

/// A copy of an optional text.
pub fn copy_opt_text(o: &Option<String>) -> (r: Option<String>)
    ensures
        opt_text(r) == opt_text(*o),
{
    match o {
        Some(s) => Some(s.clone()),
        None => None,
    }
}

/// Appends a step to a list of steps.
fn push_part(out: &mut Vec<EmbedPart>, p: EmbedPart)
    ensures
        parts_view(final(out)@) == parts_view(old(out)@).push(p@),
{
    let ghost before = out@;
    out.push(p);
    assert(parts_view(out@) =~= parts_view(before).push(p@));
}

/// The steps that build the embed the embed command was given.
pub fn embed_plan(e: &EmbedSpec) -> (r: Vec<EmbedPart>)
    ensures
        parts_view(r@) == embed_plan_of(e@),
{
    let mut out: Vec<EmbedPart> = Vec::new();
    assert(parts_view(out@) =~= Seq::<EmbedPartView>::empty());
    push_part(&mut out, EmbedPart::Title(e.title.clone()));
    let ghost a = seq![EmbedPartView::Title(e@.title)];
    assert(parts_view(out@) =~= a);
    if let Some(c) = e.color {
        push_part(&mut out, EmbedPart::Color(c));
    }
    let ghost a = a + opt_part(e@.color, |c: u32| EmbedPartView::Color(c));
    assert(parts_view(out@) =~= a);
    if let Some(d) = &e.description {
        push_part(&mut out, EmbedPart::Description(d.clone()));
    }
    let ghost a = a + opt_part(e@.description, |t: Seq<char>| EmbedPartView::Description(t));
    assert(parts_view(out@) =~= a);
    if let Some(t) = &e.thumbnail {
        push_part(&mut out, EmbedPart::Thumbnail(t.clone()));
    }
    let ghost a = a + opt_part(e@.thumbnail, |t: Seq<char>| EmbedPartView::Thumbnail(t));
    assert(parts_view(out@) =~= a);
    if let Some(t) = &e.image {
        push_part(&mut out, EmbedPart::Image(t.clone()));
    }
    let ghost a = a + opt_part(e@.image, |t: Seq<char>| EmbedPartView::Image(t));
    assert(parts_view(out@) =~= a);
    if let Some(f) = &e.footer {
        push_part(&mut out, EmbedPart::Footer(f.0.clone(), copy_opt_text(&f.1)));
    }
    let ghost a = a + opt_part(
        e@.footer,
        |f: (Seq<char>, Option<Seq<char>>)| EmbedPartView::Footer(f.0, f.1),
    );
    assert(parts_view(out@) =~= a);
    let ghost fs = e@.fields;
    let n = e.fields.len();
    let mut i: usize = 0;
    while i < n
        invariant
            n == e.fields@.len() == fs.len(),
            fs == e@.fields,
            i <= n,
            parts_view(out@) == a + fs.subrange(0, i as int).map_values(
                |f: EmbedFieldView| field_part(f),
            ),
        decreases n - i,
    {
        let f = &e.fields[i];
        assert(fs[i as int] == f@);
        let inline = match f.inline {
            Some(b) => b,
            None => false,
        };
        push_part(&mut out, EmbedPart::Field(f.title.clone(), f.description.clone(), inline));
        assert(fs.subrange(0, i + 1).map_values(|f: EmbedFieldView| field_part(f)) =~= fs.subrange(
            0,
            i as int,
        ).map_values(|f: EmbedFieldView| field_part(f)).push(field_part(fs[i as int])));
        i = i + 1;
    }
    assert(fs.subrange(0, n as int) =~= fs);
    out
}

// ---------------------------------------------------------------------------
// The automatic announcements
// ---------------------------------------------------------------------------

/// The line closing every automatic message.
pub open spec fn automation_notice() -> Seq<char> {
    "Note this message was automated, and if this message contradicts previous arrangements, please ignore this message. See /info for more information."@
}

/// The line closing every automatic message.
pub fn automation_notice_text() -> (r: &'static str)
    ensures
        r@ == automation_notice(),
{
    "Note this message was automated, and if this message contradicts previous arrangements, please ignore this message. See /info for more information."
}

/// The texts of the alert posted in the hour before a meeting.
pub struct AnnouncementText {
    pub title: String,
    pub description: String,
    pub location: String,
    pub until_label: String,
    pub until_value: String,
    /// The meeting's note, posted as a field of its own when there is one.
    pub note: Option<String>,
    pub footer: String,
}

/// The value of an alert's texts.
pub struct AnnouncementTextView {
    pub title: Seq<char>,
    pub description: Seq<char>,
    pub location: Seq<char>,
    pub until_label: Seq<char>,
    pub until_value: Seq<char>,
    pub note: Option<Seq<char>>,
    pub footer: Seq<char>,
}

impl View for AnnouncementText {
    type V = AnnouncementTextView;

    open spec fn view(&self) -> AnnouncementTextView {
        AnnouncementTextView {
            title: self.title@,
            description: self.description@,
            location: self.location@,
            until_label: self.until_label@,
            until_value: self.until_value@,
            note: opt_text(self.note),
            footer: self.footer@,
        }
    }
}

/// The alert for meeting `m` that starts at Unix time `start_stamp` and ends
/// at `end_stamp`: the start shown relative to now, the end as a time of
/// day (Discord's `<t:..:R>` and `<t:..:t>` marks), the place, the note when
/// the meeting has one.
pub open spec fn announcement_text_of(m: MeetingView, start_stamp: i64, end_stamp: i64) -> AnnouncementTextView {
    AnnouncementTextView {
        title: "🎉 Meeting Alert 🚨"@,
        description: "There will be a meeting today <t:"@ + signed_decimal(start_stamp as int)
            + ":R>"@,
        location: m.location,
        until_label: "Until "@ + clock_emoji(m.end.0 as nat),
        until_value: "<t:"@ + signed_decimal(end_stamp as int) + ":t>"@,
        note: m.note,
        footer: "Please react to this message if you plan on attending!\n"@ + automation_notice(),
    }
}

/// The texts of the alert for a meeting, given the Unix times of its start
/// and end today.
pub fn announcement_text(m: &ScheduledMeeting, start_stamp: i64, end_stamp: i64) -> (r: AnnouncementText)
    ensures
        r@ == announcement_text_of(m@, start_stamp, end_stamp),
{
    let mut description = "There will be a meeting today <t:".to_owned();
    let start = signed_decimal_string(start_stamp);
    description.append(start.as_str());
    description.append(":R>");
    let mut until_label = "Until ".to_owned();
    until_label.append(get_clock_emoji_for_hour(m.end.0));
    let mut until_value = "<t:".to_owned();
    let end = signed_decimal_string(end_stamp);
    until_value.append(end.as_str());
    until_value.append(":t>");
    let mut footer = "Please react to this message if you plan on attending!\n".to_owned();
    footer.append(automation_notice_text());
    AnnouncementText {
        title: "🎉 Meeting Alert 🚨".to_owned(),
        description,
        location: m.location.clone(),
        until_label,
        until_value,
        note: copy_opt_text(&m.note),
        footer,
    }
}

/// The texts of the notice posted the day before a meeting.
pub struct DayBeforeText {
    pub title: String,
    pub description: String,
    pub location: String,
    pub time_label: String,
    pub time_value: String,
    pub footer: String,
}

/// The value of a day-before notice's texts.
pub struct DayBeforeTextView {
    pub title: Seq<char>,
    pub description: Seq<char>,
    pub location: Seq<char>,
    pub time_label: Seq<char>,
    pub time_value: Seq<char>,
    pub footer: Seq<char>,
}

impl View for DayBeforeText {
    type V = DayBeforeTextView;

    open spec fn view(&self) -> DayBeforeTextView {
        DayBeforeTextView {
            title: self.title@,
            description: self.description@,
            location: self.location@,
            time_label: self.time_label@,
            time_value: self.time_value@,
            footer: self.footer@,
        }
    }
}

/// The notice for meeting `m`, posted the day before: its day, place and
/// start time.
pub open spec fn day_before_text_of(m: MeetingView) -> DayBeforeTextView {
    DayBeforeTextView {
        title: "Meeting Notice 📒"@,
        description: "This is a notice for an upcoming meeting ***tomorrow*** ("@ + shown_day_name(
            m.day,
        ) + ")."@,
        location: m.location,
        time_label: "Time "@ + clock_emoji(m.start.0 as nat),
        time_value: clock_text(m.start.0 as nat, m.start.1 as nat),
        footer: automation_notice(),
    }
}

/// The texts of the notice posted the day before a meeting.
pub fn day_before_text(m: &ScheduledMeeting) -> (r: DayBeforeText)
    ensures
        r@ == day_before_text_of(m@),
{
    let mut description = "This is a notice for an upcoming meeting ***tomorrow*** (".to_owned();
    description.append(m.day.shown_name());
    description.append(").");
    let mut time_label = "Time ".to_owned();
    time_label.append(get_clock_emoji_for_hour(m.start.0));
    DayBeforeText {
        title: "Meeting Notice 📒".to_owned(),
        description,
        location: m.location.clone(),
        time_label,
        time_value: to_12_hr_clock_str(m.start),
        footer: automation_notice_text().to_owned(),
    }
}

// ---------------------------------------------------------------------------
// Command replies
// ---------------------------------------------------------------------------

/// How a boolean is written (`{}`).
pub open spec fn bool_text(b: bool) -> Seq<char> {
    if b {
        "true"@
    } else {
        "false"@
    }
}

/// The reply to a meeting that was scheduled.
pub open spec fn schedule_reply_of(m: MeetingView) -> Seq<char> {
    "Scheduled a meeting for "@ + shown_day_name(m.day) + " at "@ + two_digits(m.start.0 as nat)
        + ":"@ + two_digits(m.start.1 as nat) + " until "@ + two_digits(m.end.0 as nat) + ":"@
        + two_digits(m.end.1 as nat) + ". Location: "@ + m.location + ". Only this week? "@
        + bool_text(m.onetime)
}

/// The reply to a meeting that was scheduled: its day, start and end on the
/// twenty-four-hour clock, place, and whether it is for this week only.
pub fn schedule_reply(m: &ScheduledMeeting) -> (r: String)
    ensures
        r@ == schedule_reply_of(m@),
{
    let mut s = "Scheduled a meeting for ".to_owned();
    s.append(m.day.shown_name());
    s.append(" at ");
    let t = two_digit_string(m.start.0);
    s.append(t.as_str());
    s.append(":");
    let t = two_digit_string(m.start.1);
    s.append(t.as_str());
    s.append(" until ");
    let t = two_digit_string(m.end.0);
    s.append(t.as_str());
    s.append(":");
    let t = two_digit_string(m.end.1);
    s.append(t.as_str());
    s.append(". Location: ");
    s.append(m.location.as_str());
    s.append(". Only this week? ");
    s.append(if m.onetime {
        "true"
    } else {
        "false"
    });
    s
}

/// The mention of a role, as Discord writes it (`<@&id>`).
pub open spec fn role_mention(id: u64) -> Seq<char> {
    "<@&"@ + decimal(id as nat) + ">"@
}

/// The text above a manual announcement: the mention of the chosen role, or
/// nothing.
pub open spec fn announce_content_of(role: Option<u64>) -> Seq<char> {
    match role {
        Some(id) => role_mention(id),
        None => ""@,
    }
}

/// The text above a manual announcement.
pub fn announce_content(role: Option<u64>) -> (r: String)
    ensures
        r@ == announce_content_of(role),
{
    match role {
        Some(id) => {
            let mut s = "<@&".to_owned();
            let d = decimal_u64_string(id);
            s.append(d.as_str());
            s.append(">");
            s
        },
        None => "".to_owned(),
    }
}

/// How a manual announcement is built: its author, title and description,
/// then the footer when one is given.
pub open spec fn announce_plan_of(
    author: Seq<char>,
    avatar: Seq<char>,
    title: Seq<char>,
    description: Seq<char>,
    footer: Option<Seq<char>>,
) -> Seq<EmbedPartView> {
    seq![
        EmbedPartView::Author(author, avatar),
        EmbedPartView::Title(title),
        EmbedPartView::Description(description),
    ] + opt_part(footer, |t: Seq<char>| EmbedPartView::Footer(t, None))
}

/// The steps that build a manual announcement.
pub fn announce_plan(author: &str, avatar: &str, title: &str, description: &str, footer: Option<&str>) -> (r:
    Vec<EmbedPart>)
    ensures
        parts_view(r@) == announce_plan_of(
            author@,
            avatar@,
            title@,
            description@,
            match footer {
                Some(f) => Some(f@),
                None => None,
            },
        ),
{
    let mut out: Vec<EmbedPart> = Vec::new();
    assert(parts_view(out@) =~= Seq::<EmbedPartView>::empty());
    push_part(&mut out, EmbedPart::Author(author.to_owned(), avatar.to_owned()));
    push_part(&mut out, EmbedPart::Title(title.to_owned()));
    push_part(&mut out, EmbedPart::Description(description.to_owned()));
    if let Some(f) = footer {
        push_part(&mut out, EmbedPart::Footer(f.to_owned(), None));
    }
    let ghost fv = match footer {
        Some(f) => Some(f@),
        None => None,
    };
    assert(parts_view(out@) =~= announce_plan_of(author@, avatar@, title@, description@, fv));
    out
}

} // verus!
