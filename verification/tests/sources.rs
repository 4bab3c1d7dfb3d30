use ibrief::config::WeightTable;
use ibrief::feedback::FeedbackMeta;
use ibrief::score::Score;
use ibrief::sources::{
    drift_status, evolve_once, prune_recommendations, score_sources, total_shown, Drift, Selection, SourceEvidence,
    MAX_HHI, MIN_ACTIVE_SOURCES, PRUNE_THRESHOLD,
};

fn score(x: f64) -> Score {
    Score::from_bits(x.to_bits()).unwrap()
}

fn fb(source: &str, kind: &str) -> FeedbackMeta {
    FeedbackMeta { source_id: source.into(), topics: vec![], kind: kind.into() }
}

fn quality(e: &SourceEvidence) -> f64 {
    let p = e.stats.likes as f64 + 0.3 * e.stats.opens as f64;
    let n = e.stats.dislikes as f64;
    let ratio = if p + n == 0.0 { 0.5 } else { p / (p + n) };
    let s = e.selections as f64;
    0.7 * ratio + 0.3 * (s / (s + 3.0))
}

fn selection(id: &str, n: i64) -> Selection {
    Selection { source_id: id.into(), n }
}

fn table(pairs: &[(&str, f64)]) -> WeightTable {
    let mut t = WeightTable::new();
    for (n, q) in pairs {
        t.insert(n, score(*q));
    }
    t
}

fn hhi(shares: &[f64]) -> Score {
    score(shares.iter().map(|s| s * s).sum())
}

#[test]
fn scores_reward_positive_feedback() {
    let feedback = vec![fb("verge", "up"), fb("verge", "up"), fb("hn", "down")];
    let selections = vec![selection("verge", 10), selection("hn", 1)];
    let scores = score_sources(&feedback, &selections);
    let of = |id: &str| quality(scores.iter().find(|e| e.id == id).unwrap());
    assert!(of("verge") > of("hn"));
}

#[test]
fn evidence_covers_feedback_and_selections() {
    let feedback = vec![fb("a", "open"), fb("b", "share")];
    let scores = score_sources(&feedback, &vec![selection("c", 4), selection("a", 2)]);
    let ids: Vec<&str> = scores.iter().map(|e| e.id.as_str()).collect();
    assert_eq!(ids, vec!["a", "b", "c"]);
    assert_eq!((scores[0].stats.opens, scores[0].selections), (1, 2));
    assert_eq!((scores[1].stats.likes, scores[1].selections), (0, 0));
    assert_eq!(scores[2].selections, 4);
    assert_eq!(total_shown(&vec![selection("c", 4), selection("a", 2)]), 6);
}

#[test]
fn prune_respects_min_active() {
    let scores = table(&[("a", 0.1), ("b", 0.1), ("c", 0.1), ("d", 0.1)]);
    let active = vec!["a".into(), "b".into(), "c".into(), "d".into()];
    let deact = prune_recommendations(&scores, &active, 3, score(0.25));
    assert_eq!(deact.len(), 1);
}

#[test]
fn prune_takes_the_weakest_first() {
    let scores = table(&[("a", 0.2), ("b", 0.1), ("c", 0.9), ("d", 0.24), ("e", 0.25)]);
    let active: Vec<String> = ["a", "b", "c", "d", "e", "f"].iter().map(|s| s.to_string()).collect();
    assert_eq!(prune_recommendations(&scores, &active, 3, score(0.25)), vec!["b", "a", "d"]);
    assert_eq!(prune_recommendations(&scores, &active, 4, score(0.25)), vec!["b", "a"]);
    assert!(prune_recommendations(&scores, &active, 6, score(0.25)).is_empty());
    assert!(prune_recommendations(&table(&[]), &active, 0, score(0.25)).is_empty());
}

#[test]
fn drift_detects_concentration() {
    assert_eq!(drift_status(hhi(&[0.9, 0.05, 0.05]), Score { place: MAX_HHI }), Drift::ForceExploration);
    assert_eq!(drift_status(hhi(&[0.34, 0.33, 0.33]), Score { place: MAX_HHI }), Drift::Stable);
    assert_eq!(drift_status(hhi(&[0.5, 0.5]), Score { place: MAX_HHI }), Drift::Stable);
}

#[test]
fn drift_suspends_pruning() {
    let scores = table(&[("a", 0.1), ("b", 0.1), ("c", 0.1), ("d", 0.1)]);
    let active: Vec<String> = vec!["a".into(), "b".into(), "c".into(), "d".into()];
    let o = evolve_once(&scores, &active, hhi(&[0.9, 0.1]));
    assert_eq!(o.drift, Drift::ForceExploration);
    assert!(o.deactivated.is_empty());
    assert_eq!(o.quality_updates, 4);
    assert_eq!(o.note, "Drift erkannt → Pruning ausgesetzt, Breite erhalten (Anti-Blase)");
    let o = evolve_once(&scores, &active, hhi(&[]));
    assert_eq!(o.drift, Drift::Stable);
    assert_eq!(o.deactivated, vec!["a"]);
    assert_eq!(o.note, "1 Quelle(n) deaktiviert");
}

#[test]
fn limits_are_the_documented_numbers() {
    assert_eq!(MIN_ACTIVE_SOURCES, 3);
    assert_eq!(f64::from_bits(PRUNE_THRESHOLD as u64), 0.25);
    assert_eq!(f64::from_bits(MAX_HHI as u64), 0.5);
}
