use ibrief::brief::{
    check_fresh, choose_wildcard, final_steps, fresh_items, max_per_source, quality_floor, AssembleOpts, Assembly,
    BriefStep, NoBriefing, Stage,
};
use ibrief::briefing::{Briefing, BriefingSection, ContentItem, Timestamp};
use ibrief::config::{Config, WeightTable};
use ibrief::render::render;
use ibrief::score::Score;
use ibrief::synthesis::{counterpoint_request, tldr_request, Enrichment};

fn score(x: f64) -> Score {
    Score::from_bits(x.to_bits()).unwrap()
}

fn number(s: Score) -> f64 {
    f64::from_bits(s.to_bits())
}

fn item(id: &str, source: &str) -> ContentItem {
    ContentItem {
        id: id.into(),
        source_id: source.into(),
        title: format!("Artikel {id}"),
        url: format!("https://{source}.com/{id}"),
        published_at: None,
        raw_summary: Some(format!("Roh-Text von Artikel {id}.")),
        summary: None,
        topics: vec![],
        entities: vec![],
        embedding: None,
    }
}

fn ids(items: &Vec<ContentItem>) -> Vec<&str> {
    items.iter().map(|i| i.id.as_str()).collect()
}

fn scores(a: &Assembly, cfg: &Config) -> Vec<Score> {
    let weights = a.weigh(cfg);
    let n = weights.len().max(1) as f64;
    weights
        .iter()
        .enumerate()
        .map(|(i, w)| {
            let topics = if w.topics.is_empty() {
                1.0
            } else {
                w.topics.iter().map(|t| number(*t)).sum::<f64>() / w.topics.len() as f64
            };
            score((1.0 - i as f64 / n) * number(w.source) * topics)
        })
        .collect()
}

fn apart(n: usize) -> Vec<Vec<Score>> {
    vec![vec![score(0.0); n]; n]
}

fn opts() -> AssembleOpts {
    AssembleOpts { max_items_enrich: 12, top_n: 8, max_per_source: 3 }
}

#[test]
fn full_pipeline_enrich_curate_render() {
    let items: Vec<ContentItem> =
        (0..12).map(|i| item(&format!("item-{i}"), if i < 6 { "verge" } else { "hn" })).collect();
    let cfg = Config::default();
    let mut a = Assembly::start(&items, opts(), false, "2026-06-29");
    let s = scores(&a, &cfg);
    a.scored(&s);
    assert_eq!(a.stage, Stage::Enriching);

    let requests = a.enrich_requests();
    assert_eq!(requests.len(), 12);
    let found = (0..12)
        .map(|i| {
            Some(Enrichment {
                summary: format!("Zusammenfassung von Artikel {i}."),
                topics: vec![format!("thema{i}")],
            })
        })
        .collect();
    a.enriched(found);
    assert_eq!(a.items.len(), 12);
    for (i, it) in a.items.iter().enumerate() {
        assert!(it.summary.is_some(), "Item {i} sollte eine Summary haben");
        assert!(!it.topics.is_empty(), "Item {i} sollte Topics haben");
    }

    let s = scores(&a, &cfg);
    a.scored(&s);
    assert_eq!(a.stage, Stage::Picking);
    a.compared(&apart(12));
    assert_eq!(a.stage, Stage::Summing);
    assert_eq!(a.briefing.sections[0].items.len(), 8);

    let req = tldr_request(&a.briefing, "Fasse diese Meldungen in 3 Kernpunkten zusammen:\n{items}");
    assert!(req.prompt.contains("- Zusammenfassung von Artikel 0.\n"));
    a.summed(&Some("- Erste Sache\n- Zweite Sache\n- Dritte Sache".into()));
    assert_eq!(a.briefing.tldr.len(), 3);

    assert!(counterpoint_request(&a.briefing).prompt.contains("Zusammenfassung von Artikel 6."));
    a.countered(&Some("Eine faire Gegenperspektive mit Substanz.".into()));
    assert_eq!(a.stage, Stage::Complete);

    let md = render(&a.briefing);
    assert!(md.contains("# Morning Briefing — 2026-06-29"));
    assert!(md.contains("## Die 3 Dinge heute"));
    assert!(md.contains("Erste Sache"));
    assert!(md.contains("Zweite Sache"));
    assert!(md.contains("Dritte Sache"));
    assert!(md.contains("## KI & Tech — Highlights"));
    assert!(md.contains("Gegenperspektive"));
    let n_sections = a.briefing.sections.len();
    assert!(n_sections >= 2, "mindestens Haupt- und Gegenperspektive");
    for sec in &a.briefing.sections {
        for it in &sec.items {
            assert!(
                it.summary.is_some() || it.title == "Gegenperspektive",
                "Item {} ({}) in Sektion {} hat keine Summary",
                it.id,
                it.title,
                sec.id
            );
        }
    }
    let shape: Vec<(&str, &str)> = a.briefing.sections.iter().map(|s| (s.id.as_str(), s.title.as_str())).collect();
    assert_eq!(
        shape,
        vec![
            ("ai_tech", "KI & Tech — Highlights"),
            ("counterpoint", "Gegenperspektive"),
            ("wildcard", "Wildcard"),
        ]
    );
    assert!(!ids(&a.briefing.sections[0].items).contains(&a.briefing.sections[2].items[0].id.as_str()));
}

#[test]
fn a_briefing_is_made_when_the_models_fail() {
    let items = vec![item("1", "a"), item("2", "b")];
    let cfg = Config::default();
    let mut a = Assembly::start(&items, opts(), true, "d");
    let s = scores(&a, &cfg);
    a.scored(&s);
    assert_eq!(a.stage, Stage::Embedding);
    a.embedding_failed();
    a.enriched(vec![None, None]);
    let s = scores(&a, &cfg);
    a.scored(&s);
    a.compared(&apart(2));
    a.summed(&None);
    a.countered(&None);
    assert_eq!(a.briefing.date, "d");
    assert!(a.briefing.tldr.is_empty());
    assert_eq!(a.briefing.sections.len(), 1);
    assert_eq!(ids(&a.briefing.sections[0].items), vec!["1", "2"]);
}

#[test]
fn repeated_stories_fall_out_before_enriching() {
    let items = vec![item("1", "a"), item("2", "b"), item("3", "c")];
    let mut a = Assembly::start(&items, opts(), true, "d");
    let s = scores(&a, &Config::default());
    a.scored(&s);
    let (hi, lo) = (score(0.95), score(0.1));
    let cosines = vec![vec![hi, hi, lo], vec![hi, hi, lo], vec![lo, lo, hi]];
    a.embedded(vec![Some(vec![1]), Some(vec![1]), Some(vec![2])], &cosines);
    assert_eq!(ids(&a.items), vec!["1", "3"]);
    assert_eq!(a.enrich_requests().len(), 2);
}

#[test]
fn like_stories_are_picked_last() {
    let mut items = vec![item("1", "a"), item("2", "b"), item("3", "c")];
    for it in &mut items {
        it.embedding = Some(vec![1]);
    }
    let few = AssembleOpts { max_items_enrich: 12, top_n: 2, max_per_source: 3 };
    let mut a = Assembly::start(&items, few, false, "d");
    let s = scores(&a, &Config::default());
    a.scored(&s);
    a.enriched(vec![None, None, None]);
    let s = scores(&a, &Config::default());
    a.scored(&s);
    let (hi, lo) = (score(0.9), score(0.1));
    a.compared(&vec![vec![hi, hi, lo], vec![hi, hi, lo], vec![lo, lo, hi]]);
    assert_eq!(a.stage, Stage::Summing);
    assert_eq!(ids(&a.briefing.sections[0].items), vec!["1", "3"]);
}

#[test]
fn weights_move_items() {
    let mut old = item("old", "a");
    old.published_at = Some(Timestamp { seconds: 1, nanos: 0 });
    let mut new = item("new", "b");
    new.published_at = Some(Timestamp { seconds: 2, nanos: 0 });
    let mut cfg = Config::default();
    let mut a = Assembly::start(&vec![old, new], opts(), false, "d");
    assert_eq!(ids(&a.items), vec!["new", "old"]);
    cfg.source_weights.insert("b", score(0.2));
    let s = scores(&a, &cfg);
    a.scored(&s);
    assert_eq!(ids(&a.items), vec!["old", "new"]);
}

#[test]
fn fresh_items_were_never_seen() {
    let items = || vec![item("1", "a"), item("2", "b")];
    assert_eq!(ids(&fresh_items(items(), &vec![true, false], false)), vec!["2"]);
    assert_eq!(ids(&fresh_items(items(), &vec![true, false], true)), vec!["1", "2"]);
    assert!(check_fresh(&items(), true).is_ok());
    assert_eq!(check_fresh(&vec![], true), Err(NoBriefing::AlreadyThere));
    assert_eq!(check_fresh(&vec![], false), Err(NoBriefing::NothingNew));
}

#[test]
fn weak_sources_are_not_taken_up() {
    let items = || vec![item("1", "a"), item("2", "b"), item("3", "c")];
    let mut q = WeightTable::new();
    q.insert("a", score(0.2));
    q.insert("b", score(0.5));
    assert_eq!(ids(&quality_floor(items(), &q, score(0.5))), vec!["2", "3"]);
    assert_eq!(ids(&quality_floor(items(), &q, score(0.0))), vec!["1", "2", "3"]);
    assert!(quality_floor(items(), &q, score(1.5)).is_empty());
}

#[test]
fn a_source_has_at_most_three_fifths() {
    let got: Vec<usize> = [0, 1, 2, 4, 5, 8, 10].into_iter().map(max_per_source).collect();
    assert_eq!(got, vec![1, 1, 1, 2, 3, 4, 6]);
    for n in 0..2000usize {
        assert_eq!(max_per_source(n), ((n as f64) * 0.6).floor().max(1.0) as usize);
    }
}

fn briefing(shown: Vec<ContentItem>) -> Briefing {
    Briefing {
        date: "2026-06-28".into(),
        tldr: vec!["x".into()],
        sections: vec![BriefingSection { id: "ai_tech".into(), title: "T".into(), items: shown }],
    }
}

#[test]
fn the_wildcard_is_beyond_the_selection() {
    let ranked = vec![item("1", "a"), item("2", "a"), item("3", "b"), item("4", "c")];
    let b = briefing(vec![item("1", "a"), item("3", "b")]);
    assert_eq!(choose_wildcard(&b, &ranked).unwrap().id, "4");
    let b = briefing(vec![item("1", "a"), item("3", "b"), item("4", "c")]);
    assert_eq!(choose_wildcard(&b, &ranked).unwrap().id, "2");
    assert!(choose_wildcard(&briefing(vec![item("1", "a")]), &vec![item("1", "a")]).is_none());
}

#[test]
fn the_briefing_is_saved_before_anything_else() {
    let b = briefing(vec![item("1", "a"), item("3", "b")]);
    let fresh = vec![item("1", "a"), item("2", "a"), item("3", "b"), item("4", "c")];
    let steps = final_steps(&b, &fresh, false, true, "cfg-1");
    assert_eq!(steps.len(), 5);
    match &steps[0] {
        BriefStep::Save(rows) => {
            assert_eq!(rows.date, "2026-06-28");
            assert_eq!(rows.config_version, "cfg-1");
            assert_eq!(rows.tldr, "[\"x\"]");
            assert_eq!(rows.items.len(), 2);
            assert_eq!((rows.places[1].item_id.as_str(), rows.places[1].position), ("3", 1));
        }
        _ => panic!("saving comes first"),
    }
    assert!(matches!(&steps[1], BriefStep::Mark(row) if row.id == "2"));
    assert!(matches!(&steps[2], BriefStep::Mark(row) if row.id == "4"));
    assert!(matches!(&steps[3], BriefStep::Write { path, text }
        if path == "out/briefing-2026-06-28.md" && *text == render(&b)));
    assert!(matches!(&steps[4], BriefStep::Push(m) if m.len() == 3));
}

#[test]
fn a_forced_briefing_marks_nothing() {
    let b = briefing(vec![item("1", "a")]);
    let steps = final_steps(&b, &vec![item("1", "a"), item("2", "a")], true, false, "v");
    assert_eq!(steps.len(), 2);
    assert!(matches!(steps[0], BriefStep::Save(_)));
    assert!(matches!(steps[1], BriefStep::Write { .. }));
}
