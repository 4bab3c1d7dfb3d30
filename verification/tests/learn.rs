use ibrief::config::{Config, ItemWeights, Weight, WeightTable};
use ibrief::feedback::{aggregate, Arm, FeedbackMeta};
use ibrief::learn::{
    ab_decision, agreement_halves, config_version, gate, learn_once, preference_pairs, propose, rollback, top_weight,
    AbDecision, ConfigWrite, GateResult, LearnCandidate, LearnOutcome, PairOrder, Preference, TopShare, MAX_WEIGHT,
    MIN_WEIGHT,
};
use ibrief::score::Score;
use rand::distributions::Distribution;
use rand::rngs::StdRng;
use rand::SeedableRng;
use rand_distr::Beta;

fn score(x: f64) -> Score {
    Score::from_bits(x.to_bits()).unwrap()
}

fn number(s: Score) -> f64 {
    f64::from_bits(s.to_bits())
}

fn fb(source: &str, topic: &str, kind: &str) -> FeedbackMeta {
    FeedbackMeta { source_id: source.into(), topics: vec![topic.into()], kind: kind.into() }
}

fn cfg_sources(pairs: &[(&str, f64)]) -> Config {
    let mut c = Config::default();
    for (s, w) in pairs {
        c.source_weights.insert(s, score(*w));
    }
    c
}

fn learned(w: &ItemWeights) -> f64 {
    let topics = if w.topics.is_empty() {
        1.0
    } else {
        w.topics.iter().map(|t| number(*t)).sum::<f64>() / w.topics.len() as f64
    };
    number(w.source) * topics
}

fn preference_auc(cfg: &Config, rows: &Vec<FeedbackMeta>) -> Option<f64> {
    let pairs = preference_pairs(rows)?;
    let value = |i: usize| learned(&cfg.item_weights(&rows[i].source_id, &rows[i].topics));
    let orders: Vec<PairOrder> = pairs
        .iter()
        .map(|(p, n)| {
            let (p, n) = (value(*p), value(*n));
            if p > n + 1e-9 {
                PairOrder::Above
            } else if (p - n).abs() <= 1e-9 {
                PairOrder::Level
            } else {
                PairOrder::Below
            }
        })
        .collect();
    Some(agreement_halves(&orders) as f64 * 0.5 / pairs.len() as f64)
}

fn pos(arms: &Vec<Arm>, name: &str) -> f64 {
    let s = arms.iter().find(|a| a.name == name).unwrap().stats;
    s.likes as f64 + 0.3 * s.opens as f64
}

fn neg(arms: &Vec<Arm>, name: &str) -> f64 {
    arms.iter().find(|a| a.name == name).unwrap().stats.dislikes as f64
}

fn texts(t: &WeightTable) -> Vec<String> {
    t.entries.iter().map(|w| format!("{:.2}", number(w.value))).collect()
}

fn top_share(c: &Config) -> Option<TopShare> {
    let sum: f64 = c.source_weights.entries.iter().map(|w| number(w.value)).sum();
    if sum > 0.0 {
        let share = number(top_weight(c)) / sum;
        Some(TopShare { share: score(share), percent: format!("{:.0}", share * 100.0) })
    } else {
        None
    }
}

fn check(c: &Config) -> GateResult {
    gate(c, &texts(&c.source_weights), &texts(&c.topic_weights), &top_share(c))
}

#[test]
fn preference_auc_rewards_alignment() {
    let rows = vec![fb("verge", "ai", "up"), fb("hn", "rust", "down")];
    let aligned = cfg_sources(&[("verge", 2.0), ("hn", 0.2)]);
    assert_eq!(preference_auc(&aligned, &rows), Some(1.0));
    assert_eq!(preference_auc(&Config::default(), &rows), Some(0.5));
    let inverted = cfg_sources(&[("verge", 0.2), ("hn", 2.0)]);
    assert_eq!(preference_auc(&inverted, &rows), Some(0.0));
}

#[test]
fn preference_auc_none_without_both_signs() {
    let rows = vec![fb("verge", "ai", "up"), fb("hn", "rust", "up")];
    assert_eq!(preference_auc(&Config::default(), &rows), None);
}

#[test]
fn preference_pairs_join_every_like_with_every_dislike() {
    let rows = vec![
        fb("a", "x", "open"),
        fb("b", "x", "less"),
        fb("c", "x", "share"),
        fb("d", "x", "more"),
        fb("e", "x", "down"),
    ];
    assert_eq!(preference_pairs(&rows), Some(vec![(0, 1), (0, 4), (3, 1), (3, 4)]));
    assert_eq!(agreement_halves(&vec![PairOrder::Above, PairOrder::Level, PairOrder::Below]), 3);
}

#[test]
fn aggregate_counts_pos_neg() {
    let rows = vec![fb("verge", "ai", "up"), fb("verge", "ai", "up"), fb("hn", "rust", "down")];
    let (sources, topics) = aggregate(&rows);
    assert_eq!(pos(&sources, "verge"), 2.0);
    assert_eq!(neg(&sources, "hn"), 1.0);
    assert_eq!(pos(&topics, "ai"), 2.0);
}

#[test]
fn aggregate_knows_openings_and_unknown_kinds() {
    let mut twice = fb("a", "x", "more");
    twice.topics.push("x".into());
    let rows = vec![twice, fb("b", "y", "open"), fb("a", "y", "less"), fb("c", "z", "share")];
    let (sources, topics) = aggregate(&rows);
    let names: Vec<&str> = sources.iter().map(|a| a.name.as_str()).collect();
    assert_eq!(names, vec!["a", "b", "c"]);
    assert_eq!((pos(&sources, "a"), neg(&sources, "a")), (1.0, 1.0));
    assert_eq!((pos(&sources, "b"), neg(&sources, "b")), (0.3, 0.0));
    assert_eq!((pos(&sources, "c"), neg(&sources, "c")), (0.0, 0.0));
    assert_eq!((pos(&topics, "x"), neg(&topics, "x")), (2.0, 0.0));
    assert_eq!((pos(&topics, "y"), neg(&topics, "y")), (0.3, 1.0));
}

fn sampled(seed: u64) -> Vec<Weight> {
    let mut rng = StdRng::seed_from_u64(seed);
    let mut sample = |pos: f64, neg: f64| {
        let theta: f64 = Beta::new(1.0 + pos, 1.0 + neg).unwrap().sample(&mut rng);
        score(theta * 2.0)
    };
    vec![
        Weight { name: "verge".into(), value: sample(5.0, 0.0) },
        Weight { name: "hn".into(), value: sample(0.0, 5.0) },
    ]
}

fn json(c: &Config) -> String {
    let list: Vec<(String, f64)> =
        c.source_weights.entries.iter().map(|w| (w.name.clone(), number(w.value))).collect();
    format!("{list:?}")
}

#[test]
fn proposal_stays_within_bounds_and_is_deterministic() {
    let none: Vec<Weight> = vec![];
    let a = propose(&Config::default(), &sampled(7), &none);
    let b = propose(&Config::default(), &sampled(7), &none);
    assert_eq!(config_version(&json(&a)), config_version(&json(&b)));
    assert_eq!(a.source_weights.entries.len(), 2);
    for w in &a.source_weights.entries {
        assert!(number(w.value) >= number(Score { place: MIN_WEIGHT }));
        assert!(number(w.value) <= number(Score { place: MAX_WEIGHT }));
    }
}

#[test]
fn proposal_clamps_samples_and_keeps_other_weights() {
    let mut active = cfg_sources(&[("a", 1.5), ("b", 0.7)]);
    active.topic_weights.insert("ki", score(1.1));
    let samples = vec![
        Weight { name: "c".into(), value: score(0.01) },
        Weight { name: "a".into(), value: score(2.5) },
    ];
    let c = propose(&active, &samples, &vec![]);
    assert_eq!(number(c.source_weight("a")), 2.0);
    assert_eq!(number(c.source_weight("b")), 0.7);
    assert_eq!(number(c.source_weight("c")), 0.2);
    assert_eq!(number(c.source_weight("d")), 1.0);
    assert_eq!(number(c.topic_weight("ki")), 1.1);
    let names: Vec<&str> = c.source_weights.entries.iter().map(|w| w.name.as_str()).collect();
    assert_eq!(names, vec!["a", "b", "c"]);
}

#[test]
fn tables_keep_their_names_in_order() {
    let mut t = WeightTable::new();
    for n in ["b", "", "ä", "ab", "a", "b"] {
        t.insert(n, score(n.len() as f64));
    }
    let names: Vec<&str> = t.entries.iter().map(|w| w.name.as_str()).collect();
    assert_eq!(names, vec!["", "a", "ab", "b", "ä"]);
    assert_eq!(t.get("ab"), Some(score(2.0)));
    assert_eq!(t.get("x"), None);
}

#[test]
fn gate_rejects_source_monoculture() {
    let g = check(&cfg_sources(&[("verge", 2.0), ("hn", 0.2), ("ars", 0.2)]));
    assert!(!g.passed);
    assert!(g.reasons.iter().any(|r| r.contains("Monokultur")));
    assert_eq!(g.reasons, vec!["Quellen-Monokultur: Top-Quelle hält 83 % des Gewichts (>50 %)"]);
}

#[test]
fn gate_accepts_balanced() {
    let g = check(&cfg_sources(&[("verge", 1.0), ("hn", 1.1), ("ars", 0.9)]));
    assert!(g.passed);
    assert_eq!(g.reasons, vec!["alle Invarianten erfüllt"]);
}

#[test]
fn gate_names_every_weight_out_of_bounds() {
    let mut c = cfg_sources(&[("b", 2.5), ("a", 0.1), ("c", 2.0)]);
    c.topic_weights.insert("ki", score(-1.0));
    let g = check(&c);
    assert!(!g.passed);
    assert_eq!(
        g.reasons,
        vec![
            "source:a: Gewicht 0.10 außerhalb [0.2, 2]",
            "source:b: Gewicht 2.50 außerhalb [0.2, 2]",
            "topic:ki: Gewicht -1.00 außerhalb [0.2, 2]",
            "Quellen-Monokultur: Top-Quelle hält 54 % des Gewichts (>50 %)",
        ]
    );
    // Two sources are too few for a monoculture; the bounds have a tolerance.
    assert!(check(&cfg_sources(&[("a", 2.0), ("b", 0.2)])).passed);
    assert!(check(&cfg_sources(&[("a", 2.0 + 1e-9), ("b", 0.2 - 1e-9)])).passed);
    assert!(!check(&cfg_sources(&[("a", 2.0 + 2e-9)])).passed);
    assert!(check(&Config::default()).passed);
}

fn preference(x: f64) -> Option<Preference> {
    Some(Preference { value: score(x), raised: score(x + 1e-9), shown: format!("{x:.3}") })
}

fn candidate(config: Config, preference: Option<Preference>) -> LearnCandidate {
    LearnCandidate {
        json: json(&config),
        source_texts: texts(&config.source_weights),
        topic_texts: texts(&config.topic_weights),
        top: top_share(&config),
        preference,
        config,
    }
}

fn decide(
    weight: f64,
    active: Option<Preference>,
    preference: Option<Preference>,
) -> (LearnOutcome, Vec<ConfigWrite>) {
    learn_once(candidate(cfg_sources(&[("a", weight)]), preference), Some("cfg-alt".into()), 12, active)
}

#[test]
fn learning_adopts_what_does_not_get_worse() {
    let (o, writes) = decide(1.5, preference(0.5), preference(0.75));
    assert!(o.adopted);
    assert_eq!(o.reason, "Thompson-Update aus 12 Feedback-Ereignissen · Präferenz-AUC 0.500 → 0.750");
    assert_eq!(o.version, config_version("[(\"a\", 1.5)]"));
    assert_eq!(o.parent.as_deref(), Some("cfg-alt"));
    assert_eq!(o.gate_reasons, vec!["alle Invarianten erfüllt"]);
    assert_eq!(o.n_feedback, 12);
    assert_eq!(o.eval_active, Some(score(0.5)));
    assert_eq!(o.eval_candidate, Some(score(0.75)));
    assert!(decide(1.5, preference(0.5), preference(0.5)).0.adopted);
    assert_eq!(writes.len(), 2);
    assert!(matches!(&writes[0], ConfigWrite::Save { version, parent: Some(p), reason, payload }
        if *version == o.version && p == "cfg-alt" && *reason == o.reason && payload == "[(\"a\", 1.5)]"));
    assert!(matches!(&writes[1], ConfigWrite::Activate { version } if *version == o.version));
}

#[test]
fn learning_rejects_at_either_check() {
    let (o, writes) = decide(2.5, preference(0.5), preference(0.9));
    assert!(!o.adopted);
    assert_eq!(o.reason, "Safety Gate fehlgeschlagen — Kandidat verworfen");
    assert_eq!(o.gate_reasons, vec!["source:a: Gewicht 2.50 außerhalb [0.2, 2]"]);
    assert!(writes.is_empty());
    let (o, writes) = decide(1.5, preference(0.75), preference(0.5));
    assert!(!o.adopted);
    assert_eq!(o.reason, "Eval-Gate: Präferenz-AUC verschlechtert (0.750 → 0.500) — verworfen");
    assert!(writes.is_empty());
}

#[test]
fn learning_without_judgement_rests_on_the_invariants() {
    let (o, _) = decide(1.5, None, None);
    assert!(o.adopted);
    assert_eq!(
        o.reason,
        "Thompson-Update aus 12 Feedback-Ereignissen · Eval inconclusive (einseitiges/dünnes Feedback) — nur Invarianten"
    );
    assert_eq!(o.eval_active, None);
}

#[test]
fn rollback_needs_an_existing_version() {
    assert!(matches!(rollback("cfg-1", true), Ok(ConfigWrite::Activate { version }) if version == "cfg-1"));
    assert_eq!(rollback("cfg-1", false).unwrap_err(), "Config-Version 'cfg-1' existiert nicht");
}

fn ab(control: &[f64], candidate: &[f64], min_samples: usize, margin: f64) -> AbDecision {
    let mean = |xs: &[f64]| xs.iter().sum::<f64>() / xs.len() as f64;
    let (mc, mk) = (mean(control), mean(candidate));
    ab_decision(control.len(), candidate.len(), min_samples, score(mk), score(mc + margin), score(mc - margin))
}

#[test]
fn ab_keeps_running_until_enough_samples() {
    assert_eq!(ab(&[0.6], &[0.8], 3, 0.05), AbDecision::KeepRunning);
}

#[test]
fn ab_promotes_clear_winner_and_rejects_loser() {
    let control = [0.50, 0.52, 0.48];
    let winner = [0.70, 0.72, 0.71];
    let loser = [0.30, 0.31, 0.29];
    assert_eq!(ab(&control, &winner, 3, 0.05), AbDecision::Promote);
    assert_eq!(ab(&control, &loser, 3, 0.05), AbDecision::Reject);
    assert_eq!(ab(&control, &[0.50, 0.51, 0.49], 3, 0.05), AbDecision::KeepRunning);
}

#[test]
fn config_version_hashes_the_content() {
    assert_eq!(config_version(""), "cfg-cbf29ce484222325");
    assert_eq!(config_version("a"), "cfg-af63dc4c8601ec8c");
    assert_ne!(config_version("ä"), config_version("a"));
}

#[test]
fn the_same_feedback_and_samples_give_the_same_candidate() {
    let rows = || vec![fb("verge", "ki", "up"), fb("hn", "chips", "down"), fb("verge", "chips", "open")];
    let (a, b) = (aggregate(&rows()), aggregate(&rows()));
    let shape = |arms: &Vec<Arm>| -> Vec<(String, u128, u128, u128)> {
        arms.iter()
            .map(|a| (a.name.clone(), a.stats.likes as u128, a.stats.opens as u128, a.stats.dislikes as u128))
            .collect()
    };
    assert_eq!(shape(&a.0), shape(&b.0));
    assert_eq!(shape(&a.1), shape(&b.1));

    let active = cfg_sources(&[("z", 0.7), ("hn", 1.3), ("a", 1.1)]);
    let x = propose(&active, &sampled(7), &vec![]);
    let y = propose(&active, &sampled(7), &vec![]);
    let names: Vec<&str> = x.source_weights.entries.iter().map(|w| w.name.as_str()).collect();
    assert_eq!(names, vec!["a", "hn", "verge", "z"]);
    assert_eq!(json(&x), json(&y));
    assert_eq!(config_version(&json(&x)), config_version(&json(&y)));
    assert_ne!(json(&x), json(&propose(&active, &sampled(8), &vec![])));
}

fn drawn(arms: &Vec<Arm>, rng: &mut StdRng) -> Vec<Weight> {
    arms.iter()
        .map(|a| {
            let pos = a.stats.likes as f64 + 0.3 * a.stats.opens as f64;
            let theta: f64 = Beta::new(1.0 + pos, 1.0 + a.stats.dislikes as f64).unwrap().sample(rng);
            Weight { name: a.name.clone(), value: score(theta * 2.0) }
        })
        .collect()
}

fn learn(rows: &Vec<FeedbackMeta>, active: &Config, seed: u64) -> (LearnOutcome, Vec<ConfigWrite>) {
    let (sources, topics) = aggregate(rows);
    let mut rng = StdRng::seed_from_u64(seed);
    let source_samples = drawn(&sources, &mut rng);
    let topic_samples = drawn(&topics, &mut rng);
    let config = propose(active, &source_samples, &topic_samples);
    let value = |c: &Config| preference_auc(c, rows).map(|x| preference(x).unwrap());
    let of_candidate = value(&config);
    learn_once(candidate(config, of_candidate), None, rows.len(), value(active))
}

#[test]
fn the_same_seed_learns_the_same() {
    let rows = || vec![fb("verge", "ki", "up"), fb("hn", "chips", "down"), fb("ars", "chips", "open")];
    for seed in 0..20 {
        let (a, wa) = learn(&rows(), &cfg_sources(&[("verge", 1.2), ("z", 0.7)]), seed);
        let (b, wb) = learn(&rows(), &cfg_sources(&[("z", 0.7), ("verge", 1.2)]), seed);
        assert_eq!((&a.version, a.adopted, &a.reason), (&b.version, b.adopted, &b.reason));
        assert_eq!((a.eval_active, a.eval_candidate), (b.eval_active, b.eval_candidate));
        assert_eq!(format!("{wa:?}"), format!("{wb:?}"));
    }
    let empty = Config::default();
    assert_ne!(learn(&rows(), &empty, 1).0.version, learn(&rows(), &empty, 2).0.version);
}

#[test]
fn the_order_of_entry_does_not_matter() {
    let a = cfg_sources(&[("z", 0.7), ("hn", 1.3), ("a", 1.1)]);
    let b = cfg_sources(&[("a", 1.1), ("hn", 0.2), ("z", 0.7), ("hn", 1.3)]);
    assert_eq!(json(&a), json(&b));
}
