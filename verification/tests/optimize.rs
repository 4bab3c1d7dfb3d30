use ibrief::briefing::{Briefing, BriefingSection, ContentItem};
use ibrief::optimize::{
    active_tldr, begin_trial, check_inputs, items_to_text, judge_pair, judge_request, propose_prompt, propose_request,
    read_winner, shadow_dates, shadow_inputs, should_adopt, version_of, ActivePrompt, DayBriefing, PairVerdict,
    PromptWrite, Proposal, RawWinner, ShadowInput, ShadowTally, Trial, SLOT_TLDR, TLDR_DEFAULT,
};

#[test]
fn adoption_requires_win_and_no_loss() {
    let t = |wins, losses, ties| ShadowTally { wins, losses, ties };
    assert!(should_adopt(&t(1, 0, 0)));
    assert!(should_adopt(&t(2, 0, 1)));
    assert!(!should_adopt(&t(0, 0, 3)));
    assert!(!should_adopt(&t(2, 1, 0)));
    assert!(!should_adopt(&t(0, 0, 0)));
}

#[test]
fn version_is_stable() {
    assert_eq!(version_of("abc"), version_of("abc"));
    assert_ne!(version_of("abc"), version_of("abd"));
}

#[test]
fn version_is_the_hash_of_the_bytes() {
    assert_eq!(version_of(""), "tpl-cbf29ce484222325");
    assert_eq!(version_of("foobar"), "tpl-85944171f73967e8");
}

#[test]
fn tally_counts_its_dates() {
    assert_eq!(ShadowTally { wins: 2, losses: 1, ties: 4 }.dates(), 7);
    assert_eq!(ShadowTally::default().dates(), 0);
}

fn section<'a>(text: &'a str, start: &str, end: &str) -> &'a str {
    let s = text.find(start).map(|i| i + start.len()).unwrap_or(0);
    let e = text.find(end).unwrap_or(text.len());
    &text[s..e.max(s)]
}

fn trial(days: usize) -> Trial {
    let inputs: Vec<ShadowInput> =
        (0..days).map(|i| ShadowInput { date: format!("2026-06-2{i}"), text: "items".into() }).collect();
    let active = ActivePrompt { version: "tpl-alt".into(), template: "active {items}".into() };
    match begin_trial(active, inputs, "BETTER {items}".into()) {
        Proposal::Trial(t) => t,
        Proposal::Identical(_) => panic!("the candidate is new"),
    }
}

fn synth(prompt: &str) -> &'static str {
    if prompt.contains("BETTER") {
        "candidate tldr"
    } else {
        "active tldr"
    }
}

fn shadow_compare(judge: &dyn Fn(&str) -> String) -> PairVerdict {
    let mut t = trial(1);
    let (a, c) = t.next().unwrap();
    assert_eq!(a.prompt, "active items");
    let (first, second) = t.judge(synth(&a.prompt), synth(&c.prompt));
    let (one, two) = (judge(&first.prompt), judge(&second.prompt));
    t.judged(&one, &two);
    t.verdicts[0]
}

#[test]
fn shadow_prefers_better_candidate_in_both_orders() {
    let judge = |prompt: &str| {
        let a = section(prompt, "VARIANTE A:", "VARIANTE B:");
        if a.contains("candidate") { "A".to_string() } else { "B".to_string() }
    };
    assert_eq!(shadow_compare(&judge), PairVerdict::Candidate);
}

#[test]
fn position_bias_cancels_to_tie() {
    assert_eq!(shadow_compare(&|_: &str| "A".to_string()), PairVerdict::Tie);
    assert_eq!(shadow_compare(&|_: &str| "b".to_string()), PairVerdict::Tie);
}

#[test]
fn verdict_needs_both_rounds() {
    let (a, b, tie) = (RawWinner::A, RawWinner::B, RawWinner::Tie);
    assert_eq!(judge_pair(b, a), PairVerdict::Candidate);
    assert_eq!(judge_pair(a, b), PairVerdict::Active);
    for (x, y) in [(a, a), (b, b), (a, tie), (b, tie), (tie, a), (tie, b), (tie, tie)] {
        assert_eq!(judge_pair(x, y), PairVerdict::Tie);
    }
}

#[test]
fn words_of_the_judge_are_read_leniently() {
    assert_eq!(read_winner(" a\n"), RawWinner::A);
    assert_eq!(read_winner("B"), RawWinner::B);
    assert_eq!(read_winner("tie"), RawWinner::Tie);
    assert_eq!(read_winner("AB"), RawWinner::Tie);
}

#[test]
fn judge_request_shows_both_variants() {
    let req = judge_request("M", "x", "y");
    assert_eq!(
        req.prompt,
        "Zwei TL;DR-Varianten derselben Meldungen. Welche ist besser nach Prägnanz, Relevanz und Anschlussfähigkeit für Entscheidungen?\n\nMELDUNGEN:\nM\n\nVARIANTE A:\nx\n\nVARIANTE B:\ny\n\nAntworte NUR mit JSON {\"winner\":\"A\"} oder {\"winner\":\"B\"} oder {\"winner\":\"tie\"}."
    );
    assert_eq!(f32::from_bits(req.temperature), 0.1);
    assert_eq!(req.system.as_deref(), Some("Du bist ein strenger Gutachter. Antworte ausschließlich mit JSON."));
}

#[test]
fn propose_request_shows_the_active_prompt() {
    let req = propose_request("P {items}");
    assert!(req.prompt.starts_with("Aktueller Prompt:\n---\nP {items}\n---\n\nVerbessere ihn, damit das TL;DR"));
    assert!(req.prompt.ends_with("Behalte den Platzhalter {items}. Gib nur den neuen Prompt zurück."));
    assert_eq!(f32::from_bits(req.temperature), 0.7);
    assert_eq!(propose_prompt("\n neu {items} "), "neu {items}");
}

#[test]
fn the_first_prompt_is_seeded() {
    let (p, writes) = active_tldr(None);
    assert_eq!(p.template, TLDR_DEFAULT);
    assert_eq!(p.version, version_of(TLDR_DEFAULT));
    assert_eq!(writes.len(), 2);
    assert!(matches!(&writes[0], PromptWrite::Save { slot, parent: None, reason, template, .. }
        if slot == SLOT_TLDR && reason == "Seed-Default" && template == TLDR_DEFAULT));
    assert!(matches!(&writes[1], PromptWrite::Activate { slot, version } if slot == "tldr" && *version == p.version));
    let held = ActivePrompt { version: "v".into(), template: "t".into() };
    let (p, writes) = active_tldr(Some(held));
    assert_eq!((p.version.as_str(), p.template.as_str()), ("v", "t"));
    assert!(writes.is_empty());
}

fn briefing(titles: &[&str]) -> Briefing {
    let items = titles
        .iter()
        .map(|t| ContentItem {
            id: t.to_string(),
            source_id: "s".into(),
            title: t.to_string(),
            url: String::new(),
            published_at: None,
            raw_summary: None,
            summary: None,
            topics: vec![],
            entities: vec![],
            embedding: None,
        })
        .collect();
    Briefing {
        date: "d".into(),
        tldr: vec![],
        sections: vec![BriefingSection { id: "x".into(), title: "X".into(), items }],
    }
}

#[test]
fn inputs_are_days_that_show_something() {
    assert_eq!(items_to_text(&briefing(&["a", "b"])), "- a\n- b\n");
    let days = vec![
        DayBriefing { date: "1".into(), briefing: None },
        DayBriefing { date: "2".into(), briefing: Some(briefing(&[])) },
        DayBriefing { date: "3".into(), briefing: Some(briefing(&["a"])) },
    ];
    let inputs = shadow_inputs(&days);
    assert_eq!(inputs.len(), 1);
    assert_eq!((inputs[0].date.as_str(), inputs[0].text.as_str()), ("3", "- a\n"));
    assert!(check_inputs(&inputs).is_ok());
    assert_eq!(check_inputs(&vec![]).unwrap_err(), "kein Briefing als Schatten-Input (erst `ibrief brief`)");
    assert_eq!(shadow_dates(Some("x".into()), vec!["y".into()]), vec!["x"]);
    assert_eq!(shadow_dates(None, vec!["y".into()]), vec!["y"]);
}

#[test]
fn a_winning_candidate_is_adopted() {
    let mut t = trial(3);
    for (one, two) in [("B", "A"), ("tie", "tie"), ("b", "a")] {
        assert!(t.next().is_some());
        t.judged(one, two);
    }
    assert!(t.next().is_none());
    let end = t.finish();
    assert!(end.outcome.adopted);
    assert_eq!(end.outcome.tally, Some(ShadowTally { wins: 2, losses: 0, ties: 1 }));
    assert_eq!(
        end.outcome.reason,
        "Pairwise-Judge über 3 Tag(e): Kandidat 2 Sieg(e), 0 Niederlage(n), 1 unentschieden"
    );
    let candidate = version_of("BETTER {items}");
    assert_eq!(end.outcome.candidate_version, candidate);
    assert_eq!(end.experiment.id, version_of(&format!("tpl-alt|{candidate}|2026-06-20,2026-06-21,2026-06-22")));
    assert_eq!(end.experiment.kind, "prompt");
    assert_eq!(end.experiment.slot, "tldr");
    assert_eq!(end.experiment.control, "tpl-alt");
    assert_eq!(end.experiment.status, "promoted");
    assert!(matches!(&end.writes[0], PromptWrite::Save { version, parent: Some(p), template, .. }
        if *version == candidate && p == "tpl-alt" && template == "BETTER {items}"));
    assert!(matches!(&end.writes[1], PromptWrite::Activate { version, .. } if *version == candidate));
}

#[test]
fn a_loss_rejects_the_candidate() {
    let mut t = trial(2);
    t.judged("B", "A");
    t.judged("A", "B");
    let end = t.finish();
    assert!(!end.outcome.adopted);
    assert_eq!(end.experiment.status, "rejected");
    assert!(end.writes.is_empty());
}

#[test]
fn an_identical_candidate_is_not_tried() {
    let active = ActivePrompt { version: version_of("P"), template: "P".into() };
    match begin_trial(active, vec![], "P".into()) {
        Proposal::Identical(o) => {
            assert!(!o.adopted);
            assert_eq!(o.tally, None);
            assert_eq!(o.reason, "Kandidat identisch zum aktiven Prompt");
            assert_eq!(o.active_version, o.candidate_version);
        }
        Proposal::Trial(_) => panic!("nothing to try"),
    }
}
