use ibrief::briefing::{Briefing, BriefingSection, ContentItem, Timestamp};
use ibrief::store::{
    filter_unseen, is_active, item_row, load_briefing, row_item, save_briefing, search_pattern, texts_field,
    texts_from_field, texts_or_default, BriefingRows, ContentRow, LoadedRow,
};

fn item(id: &str) -> ContentItem {
    ContentItem {
        id: id.into(),
        source_id: "s".into(),
        title: "t".into(),
        url: format!("https://example.com/{id}"),
        published_at: None,
        raw_summary: None,
        summary: Some("sum".into()),
        topics: vec!["a".into()],
        entities: vec!["e".into()],
        embedding: Some(vec![1]),
    }
}

fn join(rows: BriefingRows) -> Vec<LoadedRow> {
    rows.items
        .into_iter()
        .zip(rows.places)
        .map(|(item, place)| LoadedRow { section_id: place.section_id, item })
        .collect()
}

#[test]
fn dedup_briefing_and_feedback() {
    let fresh = filter_unseen(vec![item("a"), item("b")], &vec![false, false]);
    assert_eq!(fresh.len(), 2);
    let again = filter_unseen(vec![item("a"), item("c")], &vec![true, false]);
    assert_eq!(again.len(), 1);
    assert_eq!(again[0].id, "c");

    let b = Briefing {
        date: "2026-06-28".into(),
        tldr: vec!["x".into()],
        sections: vec![BriefingSection {
            id: "ai_tech".into(),
            title: "T".into(),
            items: vec![item("a"), item("b")],
        }],
    };
    let rows = save_briefing(&b, "m2-test");
    let item_at = |pos: i64| rows.places.iter().find(|p| p.position == pos).map(|p| p.item_id.as_str());
    assert_eq!(item_at(0), Some("a"));
    assert_eq!(item_at(1), Some("b"));
    assert_eq!(item_at(2), None);
    assert_eq!(rows.config_version, "m2-test");
}

fn sample() -> Briefing {
    let mut dated = item("b");
    dated.published_at = Some(Timestamp { seconds: 1_782_628_200, nanos: 120_000_000 });
    dated.topics = vec!["Anführung \"x\"".into(), "Zeile\n\\ \u{1F600}".into()];
    Briefing {
        date: "2026-06-28".into(),
        tldr: vec!["eins".into(), "zwei \"und\" drei".into()],
        sections: vec![
            BriefingSection { id: "ai_tech".into(), title: "KI".into(), items: vec![item("a"), dated] },
            BriefingSection { id: "wildcard".into(), title: "W".into(), items: vec![item("c")] },
        ],
    }
}

#[test]
fn a_briefing_survives_the_store() {
    let b = sample();
    let rows = save_briefing(&b, "v");
    let tldr = rows.tldr.clone();
    let back = load_briefing(&b.date, &tldr, &join(rows));
    assert_eq!(back.date, b.date);
    assert_eq!(back.tldr, b.tldr);
    assert_eq!(back.sections.len(), 2);
    for (x, y) in back.sections.iter().zip(&b.sections) {
        assert_eq!(x.id, y.id);
        assert_eq!(x.title, y.id);
        assert_eq!(x.items.len(), y.items.len());
        for (p, q) in x.items.iter().zip(&y.items) {
            assert_eq!(p.id, q.id);
            assert_eq!(p.published_at, q.published_at);
            assert_eq!(p.topics, q.topics);
            assert_eq!(p.summary, q.summary);
            assert!(p.entities.is_empty());
            assert!(p.embedding.is_none());
        }
    }
}

#[test]
fn rows_are_grouped_by_section() {
    let row = |section: &str, id: &str| LoadedRow { section_id: section.into(), item: item_row(&item(id)) };
    let back = load_briefing("d", "kaputt", &vec![row("x", "1"), row("y", "2"), row("x", "3")]);
    assert!(back.tldr.is_empty());
    assert_eq!(back.sections.len(), 2);
    assert_eq!(back.sections[0].items.len(), 2);
    assert_eq!(back.sections[0].items[1].id, "3");
    assert_eq!(back.sections[1].title, "y");
}

#[test]
fn instants_are_written_as_rfc_3339() {
    let mut it = item("a");
    it.published_at = Some(Timestamp { seconds: 0, nanos: 0 });
    assert_eq!(item_row(&it).published_at.as_deref(), Some("1970-01-01T00:00:00+00:00"));
    it.published_at = Some(Timestamp { seconds: 1_782_628_200, nanos: 120_000_000 });
    assert_eq!(item_row(&it).published_at.as_deref(), Some("2026-06-28T06:30:00.120+00:00"));
    it.published_at = Some(Timestamp { seconds: i64::MAX, nanos: 0 });
    assert_eq!(item_row(&it).published_at, None);
    for t in [
        Timestamp { seconds: -62_167_219_200, nanos: 1 },
        Timestamp { seconds: 253_402_300_799, nanos: 1_999_999_999 },
        Timestamp { seconds: -1, nanos: 1_000_000_000 },
        Timestamp { seconds: 59, nanos: 1_500_000_000 },
    ] {
        it.published_at = Some(t);
        assert_eq!(row_item(&item_row(&it)).published_at, Some(t));
    }
}

fn content(published: Option<&str>, topics: &str) -> ContentRow {
    ContentRow {
        id: "i".into(),
        source_id: "s".into(),
        title: "t".into(),
        url: "u".into(),
        published_at: published.map(|s| s.into()),
        raw_summary: Some("roh".into()),
        summary: None,
        topics: topics.into(),
    }
}

#[test]
fn rows_are_read_leniently() {
    let it = row_item(&content(Some("2026-06-28T08:30:00+02:00"), "[\"x\"]"));
    assert_eq!(it.published_at, Some(Timestamp { seconds: 1_782_628_200, nanos: 0 }));
    assert_eq!(it.topics, vec!["x"]);
    assert_eq!(it.raw_summary.as_deref(), Some("roh"));
    let it = row_item(&content(Some("gestern"), "[1]"));
    assert_eq!(it.published_at, None);
    assert!(it.topics.is_empty());
}

#[test]
fn lists_are_fields_of_json() {
    let list = vec!["a\"b".to_string(), "ü".to_string()];
    assert_eq!(texts_field(&list), "[\"a\\\"b\",\"ü\"]");
    assert_eq!(texts_from_field(&texts_field(&list)), list);
    assert!(texts_from_field("{}").is_empty());
    assert!(texts_or_default(None).is_empty());
    assert_eq!(texts_or_default(Some(list.clone())), list);
}

#[test]
fn patterns_and_flags() {
    assert_eq!(search_pattern("x y"), "%x y%");
    assert!(is_active(1) && is_active(-1) && !is_active(0));
}
