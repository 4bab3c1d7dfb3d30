use ibrief::topics::{normalize_topic, normalize_topics, vocabulary_list, ALIASES, TOPICS};

#[test]
fn aliases_collapse_to_canonical_arm() {
    assert_eq!(normalize_topic("KI"), Some("ki"));
    assert_eq!(normalize_topic("Künstliche Intelligenz"), Some("ki"));
    assert_eq!(normalize_topic("AI"), Some("ki"));
    assert_eq!(normalize_topic(" Sprachmodelle "), Some("llm"));
    assert_eq!(normalize_topic("Cybersecurity"), Some("sicherheit"));
}

#[test]
fn unknown_tags_are_dropped() {
    assert_eq!(normalize_topic("Quantencomputer-Origami"), None);
    assert_eq!(normalize_topic(""), None);
    assert_eq!(normalize_topic("###"), None);
}

#[test]
fn normalize_topics_dedups_and_caps() {
    let raw = vec![
        "AI".to_string(),
        "KI".to_string(),
        "GPU".to_string(),
        "Roboter".to_string(),
        "Startup".to_string(),
    ];
    let out = normalize_topics(&raw);
    assert_eq!(out, vec!["ki", "chips", "robotik"]);
}

#[test]
fn every_alias_targets_vocabulary() {
    for (alias, canonical) in ALIASES {
        assert!(
            TOPICS.contains(&canonical),
            "Alias '{alias}' zeigt auf unbekanntes Topic '{canonical}'"
        );
    }
}

#[test]
fn tags_lose_what_surrounds_them() {
    assert_eq!(normalize_topic("#Open-Source!"), Some("open-source"));
    assert_eq!(normalize_topic("\u{2003}ÖKONOMIE\n"), Some("wirtschaft"));
    assert_eq!(normalize_topic("open source"), None);
    assert!(normalize_topics(&vec!["x".to_string()]).is_empty());
}

#[test]
fn vocabulary_is_listed_with_commas() {
    let list = vocabulary_list();
    assert!(list.starts_with("ki, llm, agents, "));
    assert!(list.ends_with(", krypto, gesellschaft"));
    assert_eq!(list.split(", ").count(), 24);
}

#[test]
fn topics_and_aliases_come_to_their_topic() {
    for topic in TOPICS {
        assert_eq!(normalize_topic(topic), Some(topic));
        assert_eq!(normalize_topic(&format!(" {}. ", topic.to_uppercase())), Some(topic));
    }
    for (alias, canonical) in ALIASES {
        assert_eq!(normalize_topic(alias), Some(canonical));
    }
}

#[test]
fn normalized_topics_stay_as_they_are() {
    let raw: Vec<String> = ["Roboter", "?", "AI", "ki", "Quantencomputer"].iter().map(|t| t.to_string()).collect();
    let once = normalize_topics(&raw);
    assert_eq!(normalize_topics(&once), once);
    let mut longer = raw.clone();
    longer.push("GPU".into());
    longer.push("Startup".into());
    let more = normalize_topics(&longer);
    assert!(more.starts_with(&once));
    assert!(more.len() <= 3);
}
