use ibrief::briefing::{Briefing, BriefingSection, ContentItem};
use ibrief::eval::{
    brief_to_text, clamp_mark, config_name, eval_row, evaluate, judge_request, run_checks, structure_score, word_count,
    EvalWeights, JudgeReply,
};
use ibrief::feedback::{behavior, feedback_counts, FeedbackCounts, FeedbackKind, KindCount};
use ibrief::score::Score;

fn score(x: f64) -> Score {
    Score::from_bits(x.to_bits()).unwrap()
}

fn number(s: Score) -> f64 {
    f64::from_bits(s.to_bits())
}

fn item(source: &str) -> ContentItem {
    ContentItem {
        id: source.into(),
        source_id: source.into(),
        title: "Kurzer Titel".into(),
        url: "https://example.com".into(),
        published_at: None,
        raw_summary: None,
        summary: Some("Ein Satz Zusammenfassung.".into()),
        topics: vec![],
        entities: vec![],
        embedding: None,
    }
}

fn behavior_score(f: &FeedbackCounts) -> f64 {
    match behavior(f) {
        Some(b) => {
            let pos = b.likes as f64 + 0.3 * b.opens as f64;
            pos / (pos + b.dislikes as f64)
        }
        None => 0.5,
    }
}

#[test]
fn behavior_neutral_without_feedback() {
    let f = FeedbackCounts::default();
    assert!((behavior_score(&f) - 0.5).abs() < 1e-9);
}

#[test]
fn behavior_reflects_thumbs() {
    let f = FeedbackCounts { up: 3, down: 1, ..Default::default() };
    assert!((behavior_score(&f) - 0.75).abs() < 1e-9);
}

#[test]
fn behavior_counts_every_kind() {
    let f = FeedbackCounts { up: 1, down: 2, more: 3, less: 4, open: 5 };
    let b = behavior(&f).unwrap();
    assert_eq!((b.likes, b.opens, b.dislikes), (4, 5, 6));
    assert!(behavior(&FeedbackCounts { open: 1, ..Default::default() }).is_some());
}

#[test]
fn counts_are_gathered_by_kind() {
    let row = |kind: &str, n: i64| KindCount { kind: kind.into(), n };
    let c = feedback_counts(&vec![row("down", 2), row("x", 9), row("open", 5), row("up", 1), row("more", 3), row("less", 4)]);
    assert_eq!(c, FeedbackCounts { up: 1, down: 2, more: 3, less: 4, open: 5 });
    assert_eq!(feedback_counts(&vec![]), FeedbackCounts::default());
}

#[test]
fn kinds_survive_their_names() {
    for k in [FeedbackKind::Up, FeedbackKind::Down, FeedbackKind::More, FeedbackKind::Less, FeedbackKind::Open] {
        assert_eq!(FeedbackKind::parse(k.as_str()), Some(k));
    }
    assert_eq!(FeedbackKind::parse("Up"), None);
    assert_eq!(FeedbackKind::parse(""), None);
    assert_eq!(FeedbackKind::More.as_str(), "more");
}

fn briefing(items: Vec<ContentItem>) -> Briefing {
    Briefing {
        date: "2026-06-28".into(),
        tldr: vec!["a".into()],
        sections: vec![BriefingSection { id: "ai_tech".into(), title: "T".into(), items }],
    }
}

#[test]
fn structure_flags_source_monoculture() {
    let b = briefing(vec![item("verge"), item("verge"), item("verge"), item("verge")]);
    let (s, notes) = structure_score(&b, 5);
    assert!(number(s) < 1.0);
    assert!(notes.iter().any(|n| n.contains("source_diversity")));
    assert_eq!(number(s), 3.0 / 6.0);
    assert_eq!(
        notes,
        vec!["struct:fail:source_diversity", "struct:fail:counterpoint_present", "struct:fail:wildcard_present"]
    );
}

fn whole() -> Briefing {
    let mut b = briefing(vec![item("a"), item("a"), item("a")]);
    b.sections.push(BriefingSection { id: "counterpoint".into(), title: "G".into(), items: vec![item("b")] });
    b.sections.push(BriefingSection { id: "wildcard".into(), title: "W".into(), items: vec![item("c")] });
    b
}

#[test]
fn structure_has_full_marks_when_all_is_there() {
    let (s, notes) = structure_score(&whole(), 1);
    assert_eq!(number(s), 1.0);
    assert!(notes.is_empty());
}

#[test]
fn structure_marks_are_sixths() {
    let empty = Briefing { date: "d".into(), tldr: vec![], sections: vec![] };
    let (s, notes) = structure_score(&empty, 0);
    assert_eq!(number(s), 2.0 / 6.0);
    assert_eq!(notes.len(), 4);
    let mut b = whole();
    b.sections.pop();
    assert_eq!(number(structure_score(&b, 1).0), 4.0 / 6.0);
    b.sections[0].items.pop();
    assert_eq!(number(structure_score(&b, 1).0), 4.0 / 6.0);
    b.sections[0].items.pop();
    assert_eq!(number(structure_score(&b, 1).0), 5.0 / 6.0);
}

#[test]
fn reading_time_has_half_a_minute_to_spare() {
    let mut b = whole();
    b.tldr = vec!["wort ".repeat(100 - 25)];
    assert_eq!(word_count(&b), 100);
    assert!(run_checks(&b, 0).reading_time);
    b.tldr.push("noch\u{2003}eins".into());
    assert_eq!(word_count(&b), 102);
    assert!(!run_checks(&b, 0).reading_time);
    assert!(run_checks(&b, 1).reading_time);
}

#[test]
fn judge_sees_the_whole_briefing() {
    let mut b = briefing(vec![item("a")]);
    b.sections[0].items[0].summary = None;
    b.sections.push(BriefingSection { id: "w".into(), title: "W".into(), items: vec![item("b")] });
    let text = brief_to_text(&b);
    assert_eq!(text, "TL;DR:\n- a\n\n## T\n- Kurzer Titel\n\n## W\n- Kurzer Titel: Ein Satz Zusammenfassung.\n");
    let req = judge_request(&b);
    assert!(req.prompt.starts_with("Bewerte das folgende Morning Briefing"));
    assert!(req.prompt.contains(&format!("(0.0-1.0).\n\nBRIEFING:\n{text}\n\nAntworte NUR mit JSON der Form {{\"relevance\":0.0,")));
    assert_eq!(f32::from_bits(req.temperature), 0.2);
    assert_eq!(
        req.system.as_deref(),
        Some("Du bist ein strenger Redaktions-Gutachter. Antworte ausschließlich mit JSON.")
    );
}

#[test]
fn a_failing_judge_falls_back_to_the_readers() {
    let m = evaluate(&whole(), score(0.75), 5, JudgeReply::Failed { error: "weg".into() });
    assert_eq!(m.judge, score(0.75));
    assert_eq!(m.notes, vec!["judge:fehlgeschlagen (weg) → Fallback auf Verhaltens-Score"]);
    let m = evaluate(&whole(), score(0.75), 5, JudgeReply::Judged { overall: score(1.5), comment: "gut".into() });
    assert_eq!(m.judge, score(1.0));
    assert_eq!(m.behavior, score(0.75));
    assert_eq!(m.structure, score(1.0));
    assert_eq!(m.notes, vec!["judge: gut"]);
    let r = m.with_total(score(0.875));
    assert_eq!(r.total, score(0.875));
    let row = eval_row("2026-06-28", &config_name(None), &r);
    assert_eq!(row.config_version, "default");
    assert_eq!(row.rubric_version, "r1");
    assert_eq!(row.total, score(0.875));
    assert_eq!(row.notes, vec!["judge: gut"]);
    assert_eq!(config_name(Some("cfg-1".into())), "cfg-1");
}

#[test]
fn marks_lie_between_zero_and_one() {
    assert_eq!(clamp_mark(score(-0.5)), score(0.0));
    assert_eq!(clamp_mark(score(0.3)), score(0.3));
    assert_eq!(clamp_mark(score(7.0)), score(1.0));
}

#[test]
fn default_weights_are_the_documented_ones() {
    let w = EvalWeights::default();
    assert_eq!((number(w.behavior), number(w.judge), number(w.structure)), (0.5, 0.3, 0.2));
}
