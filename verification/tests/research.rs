use ibrief::research::{verify_claims, Budget, Claim, Doc, Phase, Research, ResearchResult, ResearchStep, Status};
use ibrief::scan::extract_json;

#[test]
fn verify_excludes_unsourced_and_fake_claims() {
    let available = vec!["https://real".to_string()];
    let claims = vec![
        Claim { text: "belegt".into(), source: "https://real".into() },
        Claim { text: "erfunden".into(), source: "https://fake".into() },
        Claim { text: "ohne quelle".into(), source: "".into() },
    ];
    let (verified, unverified) = verify_claims(claims, &available);
    assert_eq!(verified.len(), 1);
    assert_eq!(verified[0].text, "belegt");
    assert_eq!(unverified.len(), 2);
}

#[test]
fn an_empty_source_is_never_available() {
    let claims = vec![Claim { text: "x".into(), source: "".into() }];
    let (verified, unverified) = verify_claims(claims, &vec!["".to_string()]);
    assert!(verified.is_empty());
    assert_eq!(unverified, vec!["x"]);
}

fn doc(url: &str, text: &str) -> Doc {
    Doc { url: url.into(), text: text.into() }
}

fn run(corpus: &Vec<Doc>, budget: Budget, reflect: &str) -> ResearchResult {
    let mut r = Research::start("Frage?", budget);
    loop {
        match r.next() {
            ResearchStep::Search { .. } => r.found(corpus.clone()),
            ResearchStep::Reflect { request } => {
                assert!(request.prompt.contains("Folge-Suchanfrage"));
                r.reflected(reflect);
            }
            ResearchStep::Synthesize { request } => {
                assert!(request.prompt.starts_with("Frage: Frage?\n\nQuellen:\n[https://a] text a\n"));
                let claims = vec![
                    Claim { text: "belegt".into(), source: "https://a".into() },
                    Claim { text: "erfunden".into(), source: "https://x".into() },
                ];
                return r.finish("Zusammenfassung".into(), claims);
            }
            ResearchStep::Abort => return r.aborted(),
        }
    }
}

#[test]
fn loop_verifies_and_drops_unsourced() {
    let corpus = vec![doc("https://a", "text a"), doc("https://b", "text b")];
    let res = run(&corpus, Budget::default(), "DONE");
    assert_eq!(res.status, Status::Complete);
    assert_eq!(res.claims.len(), 1);
    assert_eq!(res.unverified_claims.len(), 1);
    assert_eq!(res.iterations, 1);
    assert_eq!(res.answer_md, "Zusammenfassung");
    assert_eq!(res.sources_used, vec!["https://a", "https://b"]);
    assert_eq!(res.question, "Frage?");
}

#[test]
fn empty_corpus_aborts() {
    let res = run(&vec![], Budget::default(), "DONE");
    assert_eq!(res.status, Status::Aborted);
    assert_eq!(res.iterations, 1);
    assert!(res.sources_used.is_empty());
}

#[test]
fn nothing_new_ends_the_search() {
    let corpus = vec![doc("https://a", "text a"), doc("https://a", "doppelt")];
    let res = run(&corpus, Budget::default(), "weiter suchen");
    assert_eq!(res.iterations, 2);
    assert_eq!(res.sources_used, vec!["https://a"]);
    assert_eq!(res.status, Status::Complete);
}

#[test]
fn a_spent_budget_makes_the_result_partial() {
    let corpus = vec![doc("https://a", "text a"), doc("https://b", "text b")];
    let res = run(&corpus, Budget { max_iterations: 1, max_sources: 2 }, "mehr");
    assert_eq!(res.status, Status::Partial);
    let res = run(&corpus, Budget { max_iterations: 0, max_sources: 2 }, "mehr");
    assert_eq!(res.status, Status::Aborted);
    assert_eq!(res.iterations, 0);
}

#[test]
fn searches_or_sources_spent_before_the_end_make_it_partial() {
    let corpus = vec![doc("https://a", "text a"), doc("https://b", "text b")];
    let res = run(&corpus, Budget { max_iterations: 1, max_sources: 9 }, "mehr");
    assert_eq!((res.status, res.iterations), (Status::Partial, 1));
    let res = run(&corpus, Budget { max_iterations: 9, max_sources: 2 }, "mehr");
    assert_eq!((res.status, res.iterations), (Status::Partial, 1));
    let res = run(&corpus, Budget { max_iterations: 1, max_sources: 2 }, "DONE");
    assert_eq!((res.status, res.iterations), (Status::Complete, 1));
    let res = run(&corpus, Budget { max_iterations: 2, max_sources: 9 }, "mehr");
    assert_eq!((res.status, res.iterations), (Status::Complete, 2));
}

#[test]
fn the_sources_stay_within_the_budget() {
    let all: Vec<Doc> = (0..9).map(|i| doc(&format!("https://{i}"), "text")).collect();
    let mut r = Research::start("F", Budget { max_iterations: 9, max_sources: 5 });
    let mut from = 0;
    while let ResearchStep::Search { limit, .. } = r.next() {
        let limit = limit.min(2);
        r.found(all[from..from + limit].to_vec());
        from += limit;
        assert!(r.docs.len() <= 5);
        if let ResearchStep::Reflect { .. } = r.next() {
            r.reflected("weiter");
        }
    }
    assert_eq!(r.docs.len(), 5);
    assert_eq!(r.finish("A".into(), vec![]).status, Status::Partial);
}

#[test]
fn reflection_gives_the_next_query() {
    let mut r = Research::start("Frage?", Budget::default());
    match r.next() {
        ResearchStep::Search { query, limit } => assert_eq!((query.as_str(), limit), ("Frage?", 12)),
        _ => panic!("a search comes first"),
    }
    r.found(vec![doc("https://a", "text a")]);
    match r.next() {
        ResearchStep::Reflect { request } => {
            assert_eq!(
                request.prompt,
                "Forschungsfrage: Frage?\nBisher 1 Quellen gelesen.\n\nIst die Frage ausreichend beantwortet? Antworte mit 'DONE', oder gib EINE präzisere Folge-Suchanfrage (eine Zeile)."
            );
            assert_eq!(f32::from_bits(request.temperature), 0.3);
        }
        _ => panic!("then a reflection"),
    }
    r.reflected("  lokale LLMs \nzweite Zeile");
    match r.next() {
        ResearchStep::Search { query, limit } => assert_eq!((query.as_str(), limit), ("lokale LLMs", 11)),
        _ => panic!("then the next search"),
    }
    for done in ["done", " Ich bin Done.", "\n"] {
        let mut r = Research::start("Frage?", Budget::default());
        r.found(vec![doc("https://a", "text a")]);
        r.reflected(done);
        assert_eq!(r.phase, Phase::Concluding);
    }
}

#[test]
fn the_synthesis_sees_excerpts() {
    let mut r = Research::start("F", Budget { max_iterations: 1, max_sources: 1 });
    r.found(vec![doc("u", &"ä".repeat(600))]);
    r.reflected("weiter");
    match r.next() {
        ResearchStep::Synthesize { request } => {
            assert_eq!(request.prompt.matches('ä').count(), 500);
            assert!(request.prompt.ends_with("{\"answer\":\"...\",\"claims\":[{\"text\":\"...\",\"source\":\"<url>\"}]}."));
            assert_eq!(
                request.system.as_deref(),
                Some("Du bist ein präziser Rechercheur. Nur belegte Aussagen. Nur JSON.")
            );
            assert_eq!(f32::from_bits(request.temperature), 0.2);
        }
        _ => panic!("the budget is spent"),
    }
}

#[test]
fn json_is_cut_out_of_prose() {
    assert_eq!(extract_json("```json\n{\"a\":{}}\n``` ok"), "{\"a\":{}}");
    assert_eq!(extract_json("kein JSON"), "kein JSON");
    assert_eq!(extract_json("} verkehrt {"), "} verkehrt {");
}
