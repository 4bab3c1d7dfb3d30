use ibrief::bakeoff::{
    add_counterpoint, baseline_marker, bench_candidates, clamp_marks, enrich_inputs, enrich_judge, enrich_judges,
    enrich_rows, judge_mode, run, run_enrich, set_tldr, synth_rows, variant_base, BakeoffEntry, EnrichEntry, EnrichMarks,
};
use ibrief::briefing::{Briefing, BriefingSection, ContentItem};
use ibrief::eval::{evaluate, judge_request, EvalResult, JudgeReply};
use ibrief::score::Score;
use ibrief::synthesis::{counterpoint_request, enrich, tldr_request, Enrichment};

fn score(x: f64) -> Score {
    Score::from_bits(x.to_bits()).unwrap()
}

fn number(s: Score) -> f64 {
    f64::from_bits(s.to_bits())
}

fn item(source: &str) -> ContentItem {
    ContentItem {
        id: source.into(),
        source_id: source.into(),
        title: "Titel".into(),
        url: format!("https://example.com/{source}"),
        published_at: None,
        raw_summary: Some("Quelltext des Artikels.".into()),
        summary: Some("Ein Satz.".into()),
        topics: vec![],
        entities: vec![],
        embedding: None,
    }
}

fn synthetic(id: &str) -> ContentItem {
    ContentItem { url: String::new(), source_id: "ibrief".into(), ..item(id) }
}

fn base_with_counterpoint() -> Briefing {
    Briefing {
        date: "2026-06-29".into(),
        tldr: vec!["alte Zusammenfassung".into()],
        sections: vec![
            BriefingSection {
                id: "ai_tech".into(),
                title: "KI & Tech".into(),
                items: vec![item("verge"), item("hn")],
            },
            BriefingSection {
                id: "counterpoint".into(),
                title: "Gegenperspektive".into(),
                items: vec![synthetic("cp")],
            },
        ],
    }
}

fn synthesize_variant(base: &Briefing, out: &str, template: &str) -> Briefing {
    let mut v = variant_base(base);
    let req = tldr_request(&v, template);
    assert_eq!(req.prompt, "Fasse zusammen:\n- Ein Satz.\n- Ein Satz.\n");
    set_tldr(&mut v, &Some(out.to_string()));
    assert!(counterpoint_request(&v).prompt.contains("\n- Ein Satz.\n- Ein Satz.\n\n"));
    add_counterpoint(&mut v, &Some(out.to_string()));
    v
}

#[test]
fn variant_resets_tldr_and_replaces_counterpoint() {
    let base = base_with_counterpoint();
    let v = synthesize_variant(&base, "- x\n- y\n- z", "Fasse zusammen:\n{items}");
    assert_eq!(v.tldr.len(), 3);
    assert!(!v.tldr.iter().any(|t| t.contains("alte")));
    let cps = v.sections.iter().filter(|s| s.id == "counterpoint").count();
    assert_eq!(cps, 1);
    assert_eq!(v.date, "2026-06-29");
}

#[test]
fn variant_goes_on_without_a_failed_synthesis() {
    let mut v = variant_base(&base_with_counterpoint());
    set_tldr(&mut v, &None);
    add_counterpoint(&mut v, &None);
    assert!(v.tldr.is_empty());
    assert_eq!(v.sections.len(), 1);
    add_counterpoint(&mut v, &Some("  ".into()));
    assert_eq!(v.sections.len(), 1);
}

fn entry(name: &str, total: f64) -> BakeoffEntry {
    BakeoffEntry {
        name: name.into(),
        model_label: format!("ollama:{name}"),
        eval: EvalResult {
            behavior: score(0.5),
            judge: score(0.25),
            structure: score(0.75),
            total: score(total),
            notes: vec![],
        },
        elapsed_ms: 7,
    }
}

#[test]
fn ranks_best_synth_model_first() {
    let base = base_with_counterpoint();
    let mut entries = vec![];
    for (name, out) in [("B", "- a\n- b\n- c"), ("A", "- WIN\n- b\n- c")] {
        let v = synthesize_variant(&base, out, "Fasse zusammen:\n{items}");
        let overall = if judge_request(&v).prompt.contains("WIN") { 0.9 } else { 0.2 };
        let marks = evaluate(&v, score(0.5), 5, JudgeReply::Judged { overall: score(overall), comment: "t".into() });
        let total = 0.5 * number(marks.behavior) + 0.3 * number(marks.judge) + 0.2 * number(marks.structure);
        entries.push(BakeoffEntry {
            name: name.into(),
            model_label: format!("ollama:{name}"),
            eval: marks.with_total(score(total)),
            elapsed_ms: 0,
        });
    }
    let out = run(&base.date, &entries);
    assert_eq!(out.entries.len(), 2);
    assert_eq!(out.winner().unwrap().name, "A");
    assert!(number(out.entries[0].eval.total) >= number(out.entries[1].eval.total));
    assert_eq!(out.date, "2026-06-29");
}

#[test]
fn equal_totals_keep_their_order() {
    let out = run("d", &vec![entry("a", 0.5), entry("b", 0.7), entry("c", 0.5)]);
    let names: Vec<&str> = out.entries.iter().map(|e| e.name.as_str()).collect();
    assert_eq!(names, vec!["b", "a", "c"]);
    assert!(run("d", &vec![]).winner().is_none());
}

fn mean(marks: &Vec<EnrichMarks>, pick: &dyn Fn(&EnrichMarks) -> Score) -> Score {
    score(marks.iter().map(|m| number(pick(m))).sum::<f64>() / marks.len() as f64)
}

fn candidate(name: &str, summary: &str, judge: &dyn Fn(&str) -> [f64; 4]) -> EnrichEntry {
    let inputs = enrich_inputs(&base_with_counterpoint());
    let found = inputs
        .iter()
        .map(|_| Some(Enrichment { summary: summary.into(), topics: vec!["ki".into()] }))
        .collect();
    let enriched = enrich(inputs, found);
    let marks: Vec<EnrichMarks> = enrich_judges(&enriched, 15)
        .iter()
        .map(|req| {
            let [f, c, t, o] = judge(&req.prompt);
            clamp_marks(EnrichMarks {
                faithfulness: score(f),
                concision: score(c),
                tags: score(t),
                overall: score(o),
            })
        })
        .collect();
    EnrichEntry {
        name: name.into(),
        model_label: format!("ollama:{name}"),
        items_scored: marks.len(),
        faithfulness: mean(&marks, &|m| m.faithfulness),
        concision: mean(&marks, &|m| m.concision),
        tags: mean(&marks, &|m| m.tags),
        total: mean(&marks, &|m| m.overall),
        elapsed_ms: 3,
    }
}

#[test]
fn enrich_scores_each_real_item() {
    let e = candidate("cand", "Treuer Satz.", &|_| [0.9, 0.8, 0.7, 0.85]);
    let out = run_enrich(&vec![e]);
    let e = out.winner().unwrap();
    assert_eq!(e.items_scored, 2);
    assert!((number(e.total) - 0.85).abs() < 1e-9);
    assert!((number(e.faithfulness) - 0.9).abs() < 1e-9);
}

#[test]
fn enrich_ranks_better_summaries_first() {
    let judge = |prompt: &str| if prompt.contains("GUT") { [0.9; 4] } else { [0.2; 4] };
    let out = run_enrich(&vec![
        candidate("B", "mies.", &judge),
        candidate("A", "GUT zusammengefasst.", &judge),
    ]);
    assert_eq!(out.entries.len(), 2);
    assert_eq!(out.winner().unwrap().name, "A");
    assert!(number(out.entries[0].total) >= number(out.entries[1].total));
}

#[test]
fn an_unjudged_model_is_not_ranked() {
    let mut none = candidate("aus", "x", &|_| [1.0; 4]);
    none.items_scored = 0;
    let out = run_enrich(&vec![none, candidate("da", "x", &|_| [-1.0; 4])]);
    assert_eq!(out.entries.len(), 1);
    assert_eq!(out.winner().unwrap().name, "da");
    assert_eq!(number(out.entries[0].total), 0.0);
    assert!(run_enrich(&vec![]).winner().is_none());
}

#[test]
fn enrich_inputs_are_reset_real_items() {
    let inputs = enrich_inputs(&base_with_counterpoint());
    assert_eq!(inputs.len(), 2);
    assert!(inputs.iter().all(|i| i.summary.is_none() && i.topics.is_empty() && !i.url.is_empty()));
    assert_eq!(inputs[1].raw_summary.as_deref(), Some("Quelltext des Artikels."));
}

#[test]
fn enrich_judge_compares_with_the_source() {
    let mut it = item("a");
    it.topics = vec!["x".into(), "y".into()];
    let req = enrich_judge(&it, "Satz.");
    assert!(req.prompt.starts_with(
        "Quelle:\nTitel: Titel\nText: Quelltext des Artikels.\n\nErzeugte Zusammenfassung: Satz.\nErzeugte Tags: x, y\n\nBewerte 0.0-1.0:"
    ));
    assert!(req.prompt.ends_with("{\"faithfulness\":0.0,\"concision\":0.0,\"tags\":0.0,\"overall\":0.0}."));
    it.summary = None;
    assert_eq!(enrich_judges(&vec![it, item("b"), item("c")], 2).len(), 1);
}

#[test]
fn the_model_in_use_always_takes_part() {
    let configured = vec!["a".to_string(), "b".to_string()];
    assert_eq!(bench_candidates("c", &configured), vec!["c", "a", "b"]);
    assert_eq!(bench_candidates("b", &configured), vec!["a", "b"]);
    assert_eq!(baseline_marker("a", "a"), " (baseline)");
    assert_eq!(baseline_marker("a", "b"), "");
    assert_eq!(judge_mode(true), "abo");
    assert_eq!(judge_mode(false), "lokal");
}

#[test]
fn history_rows_mark_the_winner() {
    let out = run("d", &vec![entry("a", 0.5), entry("b", 0.7)]);
    let rows = synth_rows(&out, "2026-06-29", true);
    assert_eq!(rows.len(), 2);
    assert_eq!((rows[0].model.as_str(), rows[0].is_winner), ("b", true));
    assert_eq!((rows[1].model.as_str(), rows[1].is_winner), ("a", false));
    assert_eq!(rows[0].tier, "synth");
    assert_eq!(rows[0].judge_mode, "abo");
    assert_eq!(rows[0].elapsed_ms, 7);
    let names: Vec<&str> = rows[0].scores.iter().map(|s| s.name.as_str()).collect();
    assert_eq!(names, vec!["judge", "struct", "behavior"]);
    assert_eq!(rows[0].scores[1].score, score(0.75));
    let rows = enrich_rows(&run_enrich(&vec![candidate("x", "y", &|_| [0.5; 4])]), "d", false);
    assert_eq!(rows[0].tier, "enrich");
    assert_eq!(rows[0].judge_mode, "lokal");
    assert_eq!(rows[0].items_scored, 2);
    let names: Vec<&str> = rows[0].scores.iter().map(|s| s.name.as_str()).collect();
    assert_eq!(names, vec!["treue", "prägnanz", "tags"]);
}
