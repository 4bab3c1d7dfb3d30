use ibrief::briefing::{Briefing, BriefingSection, ContentItem};
use ibrief::feedback::FeedbackKind;
use ibrief::scan::strip_md;
use ibrief::telegram::{
    callback_data, next_offset, parse_callback, send_briefing, update_step, CallbackQuery, Telegram, Update, UpdateStep,
};

#[test]
fn parses_callback_data() {
    let (date, pos, kind) = parse_callback("fb:2026-06-28:3:up").unwrap();
    assert_eq!(date, "2026-06-28");
    assert_eq!(pos, 3);
    assert_eq!(kind, FeedbackKind::Up);
    assert!(parse_callback("nope:x").is_none());
}

#[test]
fn malformed_callbacks_are_refused() {
    for data in ["", "fb", "fb:d", "fb:d:1", "fb:d:x:up", "fb:d::up", "fb:d:1:UP", "xb:d:1:up", "fb:d:9223372036854775808:up"] {
        assert!(parse_callback(data).is_none(), "{data}");
    }
    assert!(parse_callback("fb:d:+2:down:mehr").is_some());
    assert_eq!(parse_callback("fb::-9223372036854775808:open").unwrap().1, i64::MIN);
}

#[test]
fn callbacks_are_read_back_and_fit() {
    for kind in [FeedbackKind::Up, FeedbackKind::Down, FeedbackKind::More, FeedbackKind::Less, FeedbackKind::Open] {
        for pos in [0, 7, 1234, -5, i64::MAX, i64::MIN] {
            let data = callback_data("2026-06-28", pos, kind);
            assert!(data.len() <= 64);
            assert_eq!(parse_callback(&data), Some(("2026-06-28".to_string(), pos, kind)));
        }
    }
    assert_eq!(callback_data("2026-06-28", 12, FeedbackKind::Down), "fb:2026-06-28:12:down");
}

fn item(title: &str, summary: Option<&str>) -> ContentItem {
    ContentItem {
        id: title.into(),
        source_id: "s".into(),
        title: title.into(),
        url: "https://x".into(),
        published_at: None,
        raw_summary: None,
        summary: summary.map(|s| s.into()),
        topics: vec![],
        entities: vec![],
        embedding: None,
    }
}

#[test]
fn a_briefing_becomes_messages() {
    let section = |id: &str, items| BriefingSection { id: id.into(), title: id.into(), items };
    let b = Briefing {
        date: "2026-06-28".into(),
        tldr: vec!["*eins*".into(), "zwei".into()],
        sections: vec![
            section("a", vec![item("T_1", Some("Satz"))]),
            section("b", vec![item("[T2", None)]),
        ],
    };
    let m = send_briefing(&b);
    assert_eq!(m.len(), 3);
    assert_eq!(m[0].text, "*Morning Briefing — 2026-06-28*\n• eins\n• zwei\n");
    assert!(m[0].thumbs.is_none());
    assert_eq!(m[1].text, "*T1*\nSatz\nhttps://x");
    assert_eq!(m[2].text, "*T2*\n\nhttps://x");
    let thumbs = m[2].thumbs.as_ref().unwrap();
    assert_eq!(thumbs.up, "fb:2026-06-28:1:up");
    assert_eq!(thumbs.down, "fb:2026-06-28:1:down");
}

#[test]
fn markup_is_stripped() {
    assert_eq!(strip_md("a*b_c`d[e]f"), "abcde]f");
}

#[test]
fn updates_lead_to_steps() {
    let update = |data: Option<Option<&str>>| Update {
        update_id: 41,
        callback_query: data.map(|d| CallbackQuery { id: "q".into(), data: d.map(|s| s.into()) }),
    };
    assert!(matches!(update_step(&update(None)), UpdateStep::Skip));
    assert!(matches!(update_step(&update(Some(None))), UpdateStep::Answer { id } if id == "q"));
    assert!(matches!(update_step(&update(Some(Some("x")))), UpdateStep::Answer { .. }));
    match update_step(&update(Some(Some("fb:d:2:less")))) {
        UpdateStep::Record { id, date, position, kind } => {
            assert_eq!((id.as_str(), date.as_str(), position, kind), ("q", "d", 2, FeedbackKind::Less));
        }
        _ => panic!("a button was pressed"),
    }
    assert_eq!(next_offset(&update(None)), 42);
}

#[test]
fn methods_have_addresses() {
    let t = Telegram::new("T".into(), "C".into());
    assert_eq!(t.url("sendMessage"), "https://api.telegram.org/botT/sendMessage");
    assert_eq!(t.chat_id, "C");
}
