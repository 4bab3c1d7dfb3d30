use ibrief::briefing::{Briefing, BriefingSection, ContentItem, Timestamp};
use ibrief::pipeline::{curate, dedup_batch, newest_first, pick_wildcard, rank};
use ibrief::render::{output_path, render};
use ibrief::score::Score;
use ibrief::synthesis::{
    batch_end, counterpoint_item, counterpoint_request, enrich, enrich_count, enrich_request, fill, section_items_text,
    tldr_bullets, tldr_request, Enrichment,
};

fn item(id: &str, source: &str) -> ContentItem {
    ContentItem {
        id: id.into(),
        source_id: source.into(),
        title: "t".into(),
        url: format!("https://x/{id}"),
        published_at: None,
        raw_summary: None,
        summary: Some("s".into()),
        topics: vec![],
        entities: vec![],
        embedding: None,
    }
}

fn at(id: &str, seconds: i64, nanos: u32) -> ContentItem {
    let mut it = item(id, "s");
    it.published_at = Some(Timestamp { seconds, nanos });
    it
}

fn score(x: f64) -> Score {
    Score::from_bits(x.to_bits()).unwrap()
}

fn ids(items: &Vec<ContentItem>) -> Vec<String> {
    items.iter().map(|i| i.id.clone()).collect()
}

fn apart(n: usize) -> Vec<Vec<Score>> {
    vec![vec![score(0.0); n]; n]
}

#[test]
fn wildcard_prefers_unseen_source() {
    let ranked = vec![item("1", "a"), item("2", "a"), item("3", "a"), item("4", "c")];
    let w = pick_wildcard(&ranked, 2).unwrap();
    assert_eq!(w.source_id, "c");
}

#[test]
fn wildcard_none_without_leftover() {
    let ranked = vec![item("1", "a"), item("2", "b")];
    assert!(pick_wildcard(&ranked, 2).is_none());
}

#[test]
fn wildcard_falls_back_to_the_first_leftover() {
    let ranked = vec![item("1", "a"), item("2", "b"), item("3", "b"), item("4", "a")];
    assert_eq!(pick_wildcard(&ranked, 2).unwrap().id, "3");
    assert_eq!(pick_wildcard(&ranked, 0).unwrap().id, "1");
    assert!(pick_wildcard(&ranked, 9).is_none());
}

#[test]
fn dedup_batch_removes_same_id_keeps_order() {
    let items = vec![item("1", "a"), item("1", "a"), item("2", "b")];
    let out = dedup_batch(items);
    assert_eq!(out.len(), 2);
    assert_eq!(out[0].id, "1");
    assert_eq!(out[1].id, "2");
}

#[test]
fn dedup_batch_keeps_the_first_of_each_id() {
    let out = dedup_batch(vec![item("1", "a"), item("2", "b"), item("1", "c"), item("3", "c"), item("2", "c")]);
    assert_eq!(ids(&out), vec!["1", "2", "3"]);
    assert_eq!(out[0].source_id, "a");
    assert_eq!(out[1].source_id, "b");
    assert!(dedup_batch(vec![]).is_empty());
}

#[test]
fn curate_caps_per_source_for_diversity() {
    let items = vec![
        item("1", "a"),
        item("2", "a"),
        item("3", "a"),
        item("4", "a"),
        item("5", "a"),
        item("6", "b"),
        item("7", "b"),
    ];
    let b = curate(items, &apart(7), 4, 2);
    let picked = &b.sections[0].items;
    assert_eq!(picked.len(), 4);
    assert_eq!(picked.iter().filter(|i| i.source_id == "a").count(), 2);
    assert_eq!(picked.iter().filter(|i| i.source_id == "b").count(), 2);
}

#[test]
fn curate_fills_overflow_when_not_diverse() {
    let items = vec![item("1", "a"), item("2", "a"), item("3", "a"), item("4", "a")];
    let b = curate(items, &apart(4), 4, 2);
    assert_eq!(b.sections[0].items.len(), 4);
}

#[test]
fn curate_keeps_rank_and_names_its_section() {
    let items = vec![item("1", "a"), item("2", "a"), item("3", "b"), item("4", "a"), item("5", "c")];
    let b = curate(items, &apart(5), 4, 0);
    assert_eq!(b.date, "");
    assert!(b.tldr.is_empty());
    assert_eq!(b.sections.len(), 1);
    assert_eq!(b.sections[0].id, "ai_tech");
    assert_eq!(b.sections[0].title, "KI & Tech — Highlights");
    assert_eq!(ids(&b.sections[0].items), vec!["1", "3", "5", "2"]);
    assert!(curate(vec![item("1", "a")], &apart(1), 0, 2).sections[0].items.is_empty());
}

fn embedded(id: &str, source: &str) -> ContentItem {
    let mut it = item(id, source);
    it.embedding = Some(vec![1]);
    it
}

fn near(n: usize, pairs: &[(usize, usize, f64)]) -> Vec<Vec<Score>> {
    let mut table = apart(n);
    for (i, j, x) in pairs {
        table[*i][*j] = score(*x);
        table[*j][*i] = score(*x);
    }
    table
}

#[test]
fn curate_passes_over_items_like_a_picked_one() {
    let items = || vec![embedded("1", "a"), embedded("2", "b"), embedded("3", "c"), embedded("4", "d")];
    let b = curate(items(), &near(4, &[(0, 1, 0.86)]), 3, 2);
    assert_eq!(ids(&b.sections[0].items), vec!["1", "3", "4"]);
    let b = curate(items(), &near(4, &[(0, 1, 0.85)]), 3, 2);
    assert_eq!(ids(&b.sections[0].items), vec!["1", "3", "4"]);
    let b = curate(items(), &near(4, &[(0, 1, 0.8499)]), 3, 2);
    assert_eq!(ids(&b.sections[0].items), vec!["1", "2", "3"]);
}

#[test]
fn curate_fills_up_with_items_like_a_picked_one() {
    let items = vec![embedded("1", "a"), embedded("2", "b"), embedded("3", "c"), embedded("4", "d")];
    let b = curate(items, &near(4, &[(0, 1, 0.9), (1, 2, 0.9)]), 4, 2);
    assert_eq!(ids(&b.sections[0].items), vec!["1", "3", "4", "2"]);
}

#[test]
fn curate_compares_with_picked_items_only() {
    let items = vec![embedded("1", "a"), embedded("2", "a"), embedded("3", "b"), embedded("4", "c")];
    let b = curate(items, &near(4, &[(1, 2, 0.99)]), 3, 1);
    assert_eq!(ids(&b.sections[0].items), vec!["1", "3", "4"]);
}

#[test]
fn items_without_embeddings_are_like_no_other() {
    let items = vec![embedded("1", "a"), item("2", "b"), embedded("3", "c")];
    let b = curate(items, &near(3, &[(0, 1, 0.9), (0, 2, 0.9)]), 2, 2);
    assert_eq!(ids(&b.sections[0].items), vec!["1", "2"]);
}

#[test]
fn newest_first_puts_undated_items_last() {
    let items = vec![item("none", "s"), at("old", -5, 0), at("new", 10, 1), at("same", 10, 1), at("later", 10, 2)];
    assert_eq!(ids(&newest_first(&items)), vec!["later", "new", "same", "old", "none"]);
}

#[test]
fn rank_sorts_by_score_and_keeps_ties() {
    let items = vec![item("1", "a"), item("2", "b"), item("3", "c"), item("4", "d")];
    let scores = vec![score(0.5), score(1.5), score(0.5), score(-1.0)];
    assert_eq!(ids(&rank(&items, &scores)), vec!["2", "1", "3", "4"]);
}

#[test]
fn neutral_scores_leave_the_order_of_age() {
    let items = newest_first(&vec![at("1", 1, 0), at("3", 3, 0), at("2", 2, 0)]);
    let scores: Vec<Score> = (0..3).map(|i| score(1.0 - (i as f64) / 3.0)).collect();
    assert_eq!(ids(&rank(&items, &scores)), vec!["3", "2", "1"]);
}

#[test]
fn scores_order_as_doubles() {
    let xs = [f64::NEG_INFINITY, -2.0, -1e-300, 0.0, 5e-324, 0.2, 1.0, 2.0, 1e300, f64::INFINITY];
    for a in xs {
        for b in xs {
            assert_eq!(score(a).less(score(b)), a < b);
        }
        assert_eq!(f64::from_bits(score(a).to_bits()), a);
    }
    assert_eq!(score(-0.0), score(0.0));
    assert!(Score::from_bits(f64::NAN.to_bits()).is_none());
}

fn briefing() -> Briefing {
    let mut first = item("1", "verge");
    first.title = "Erster".into();
    first.summary = Some("Ein Satz.".into());
    let mut second = item("2", "hn");
    second.title = "Zweiter".into();
    second.summary = None;
    second.url = String::new();
    Briefing {
        date: "2026-06-28".into(),
        tldr: vec!["a".into(), "b".into()],
        sections: vec![BriefingSection { id: "x".into(), title: "Technik".into(), items: vec![first, second] }],
    }
}

#[test]
fn render_writes_markdown() {
    let md = render(&briefing());
    assert_eq!(
        md,
        "# Morning Briefing — 2026-06-28\n\n## Die 3 Dinge heute\n\n- a\n- b\n\n## Technik\n\n### Erster\nEin Satz.\n\n[Quelle](https://x/1) · _verge_\n\n### Zweiter\n"
    );
    let mut bare = briefing();
    bare.tldr = vec![];
    bare.sections = vec![];
    assert_eq!(render(&bare), "# Morning Briefing — 2026-06-28\n\n");
    assert_eq!(output_path("2026-06-28"), "out/briefing-2026-06-28.md");
}

#[test]
fn items_are_listed_by_summary_or_title() {
    assert_eq!(section_items_text(&briefing()), "- Ein Satz.\n- Zweiter\n");
}

#[test]
fn templates_are_filled() {
    assert_eq!(fill("A {items} B {items}", "x"), "A x B x");
    assert_eq!(fill("ohne Platz", "x"), "ohne Platz\n\nx");
    assert_eq!(fill("{item{items}s}", "x"), "{itemxs}");
}

#[test]
fn tldr_request_asks_with_the_template() {
    let req = tldr_request(&briefing(), "Kurz:\n{items}");
    assert_eq!(req.prompt, "Kurz:\n- Ein Satz.\n- Zweiter\n");
    assert!(req.system.is_none());
    assert_eq!(f32::from_bits(req.temperature), 0.4);
    assert_eq!(req.max_tokens, Some(400));
}

#[test]
fn tldr_bullets_take_three_points() {
    assert_eq!(
        tldr_bullets("- eins\n\n * zwei \r\n•drei\n- vier"),
        vec!["eins", "zwei", "drei"]
    );
    assert_eq!(tldr_bullets(" \n--\n\u{a0}x\u{a0}\n"), vec!["x"]);
    assert!(tldr_bullets("").is_empty());
}

#[test]
fn counterpoint_is_an_item_of_its_own() {
    let cp = counterpoint_item("  Ein Einwand.\n", "2026-06-28").unwrap();
    assert_eq!(cp.id, "counterpoint-2026-06-28");
    assert_eq!(cp.source_id, "ibrief");
    assert_eq!(cp.title, "Gegenperspektive");
    assert_eq!(cp.url, "");
    assert_eq!(cp.summary.as_deref(), Some("Ein Einwand."));
    assert!(counterpoint_item(" \n\t", "2026-06-28").is_none());
    let req = counterpoint_request(&briefing());
    assert!(req.prompt.starts_with("Hier sind die heutigen Meldungen:\n- Ein Satz.\n- Zweiter\n\n\nFormuliere EINE"));
    assert!(req.prompt.ends_with("2–3 Sätze auf Deutsch."));
    assert_eq!(f32::from_bits(req.temperature), 0.6);
    assert_eq!(req.max_tokens, Some(400));
}

#[test]
fn enrich_request_names_title_and_text() {
    let mut it = item("1", "a");
    it.title = "Titel".into();
    it.raw_summary = Some("Text.".into());
    let req = enrich_request(&it);
    assert_eq!(
        req.prompt,
        "Titel: Titel\nText: Text.\n\nGib JSON zurück mit den Feldern \"summary\" (ein prägnanter Satz auf Deutsch) und \"topics\" (max. 3 Schlagworte aus dieser Liste: ki, llm, agents, ml-forschung, chips, hardware, software-engineering, programmiersprachen, open-source, cloud, sicherheit, datenschutz, politik-regulierung, big-tech, startups, wirtschaft, robotik, raumfahrt, wissenschaft, energie, medien, gaming, krypto, gesellschaft). Nur JSON."
    );
    assert_eq!(req.system.as_deref(), Some("Du bist ein präziser Redaktions-Assistent. Antworte ausschließlich mit JSON."));
    assert_eq!(f32::from_bits(req.temperature), 0.3);
    assert_eq!(req.max_tokens, Some(200));
    it.raw_summary = None;
    assert!(enrich_request(&it).prompt.starts_with("Titel: Titel\nText: \n\nGib JSON"));
}

#[test]
fn enrich_handles_partial_failures() {
    let items: Vec<ContentItem> = (0..5)
        .map(|i| ContentItem {
            id: format!("fail-{i}"),
            source_id: "s".into(),
            title: format!("Titel {i}"),
            url: format!("https://s.com/{i}"),
            published_at: None,
            raw_summary: Some("Text.".into()),
            summary: None,
            topics: vec![],
            entities: vec![],
            embedding: None,
        })
        .collect();
    let mut found: Vec<Option<Enrichment>> = (0..3)
        .map(|i| Some(Enrichment { summary: format!("Summary {i}"), topics: vec![format!("t{i}")] }))
        .collect();
    found.push(None);
    found.push(None);
    let enriched = enrich(items, found);
    assert_eq!(enriched.len(), 5);
    assert!(enriched[0].summary.is_some());
    assert!(enriched[1].summary.is_some());
    assert!(enriched[2].summary.is_some());
    assert!(enriched[3].summary.is_none());
    assert!(enriched[4].summary.is_none());
    assert_eq!(enriched[2].topics, vec!["t2"]);
    assert_eq!(enriched[4].title, "Titel 4");
}

#[test]
fn batches_cover_the_items_in_fours() {
    let items = vec![item("1", "a"), item("2", "a")];
    assert_eq!(enrich_count(&items, 5), 2);
    assert_eq!(enrich_count(&items, 1), 1);
    let mut start = 0;
    let mut ends = vec![];
    while start < 10 {
        start = batch_end(start, 10);
        ends.push(start);
    }
    assert_eq!(ends, vec![4, 8, 10]);
}
