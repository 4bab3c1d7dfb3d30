use ibrief::cli::{
    bench_args, check_chat, config_args, eval_args, experiment_args, feedback_args, is_forced, local_judge,
    optimize_args, parse_command, research_question, sources_args, split_args, BenchArgs, Command, ConfigCommand,
    FeedbackCommand, SourcesCommand,
};
use ibrief::feedback::FeedbackKind;

fn args(list: &[&str]) -> Vec<String> {
    list.iter().map(|s| s.to_string()).collect()
}

#[test]
fn commands_have_names() {
    let all = [
        ("brief", Command::Brief),
        ("feedback", Command::Feedback),
        ("eval", Command::Eval),
        ("bench", Command::Bench),
        ("learn", Command::Learn),
        ("config", Command::Config),
        ("optimize", Command::Optimize),
        ("experiment", Command::Experiment),
        ("sources", Command::Sources),
        ("research", Command::Research),
    ];
    for (name, command) in all {
        assert_eq!(parse_command(name), Ok(command));
    }
    assert_eq!(
        parse_command("x").unwrap_err(),
        "unbekannter Befehl 'x' (erwartet: brief | feedback | eval | bench | learn | config | optimize | experiment | sources | research)"
    );
    assert_eq!(split_args(&args(&[])), ("brief".to_string(), vec![]));
    assert_eq!(split_args(&args(&["a", "b", "c"])), ("a".to_string(), args(&["b", "c"])));
}

#[test]
fn brief_can_be_forced() {
    assert!(is_forced(&args(&["x", "--force"])));
    assert!(is_forced(&args(&["force"])));
    assert!(!is_forced(&args(&["forced"])));
}

#[test]
fn eval_takes_a_day() {
    let a = eval_args(&args(&["calibrate", "2026-06-28", "x"]), "heute");
    assert!(a.calibrate);
    assert_eq!(a.date, "2026-06-28");
    let a = eval_args(&args(&[]), "heute");
    assert!(!a.calibrate);
    assert_eq!(a.date, "heute");
}

#[test]
fn bench_takes_keywords_and_a_day() {
    assert!(matches!(bench_args(&args(&["enrich", "list"]), "heute"), BenchArgs::List));
    assert!(matches!(bench_args(&args(&["synth", "enrich", "2026-06-28"]), "heute"),
        BenchArgs::Run { calibrate: false, enrich: true, date } if date == "2026-06-28"));
    assert!(matches!(bench_args(&args(&["calibrate"]), "heute"),
        BenchArgs::Run { calibrate: true, enrich: false, date } if date == "heute"));
}

#[test]
fn optimize_may_have_a_day() {
    let a = optimize_args(&args(&["2026-06-28", "calibrate"]));
    assert!(a.calibrate);
    assert_eq!(a.date.as_deref(), Some("2026-06-28"));
    assert_eq!(optimize_args(&args(&["calibrate"])).date, None);
}

#[test]
fn feedback_is_listed_added_or_listened_for() {
    assert!(matches!(feedback_args(&args(&["list"]), "heute"), Ok(FeedbackCommand::List { date }) if date == "heute"));
    assert!(matches!(feedback_args(&args(&["list", "d"]), "heute"), Ok(FeedbackCommand::List { date }) if date == "d"));
    assert!(matches!(feedback_args(&args(&[]), "heute"), Ok(FeedbackCommand::Listen)));
    assert!(matches!(feedback_args(&args(&["x"]), "heute"), Ok(FeedbackCommand::Listen)));
    match feedback_args(&args(&["add", "3", "less", "d"]), "heute").unwrap() {
        FeedbackCommand::Add { position, kind, date } => {
            assert_eq!((position, kind, date.as_str()), (3, FeedbackKind::Less, "d"));
        }
        _ => panic!("feedback is added"),
    }
    assert!(matches!(feedback_args(&args(&["add", "0", "up"]), "heute"),
        Ok(FeedbackCommand::Add { position: 0, kind: FeedbackKind::Up, date }) if date == "heute"));
}

#[test]
fn wrong_feedback_is_explained() {
    let error = |list: &[&str]| feedback_args(&args(list), "heute").unwrap_err();
    assert_eq!(error(&["add"]), "Position fehlt: ibrief feedback add <position> <art> [datum]");
    assert_eq!(error(&["add", "x"]), "Position muss eine Zahl sein");
    assert_eq!(error(&["add", "1"]), "Art fehlt (up|down|more|less|open)");
    assert_eq!(error(&["add", "1", "gut"]), "ungültige Art 'gut' (up|down|more|less|open)");
}

#[test]
fn subcommands_default_to_listing() {
    assert!(matches!(config_args(&args(&[])), Ok(ConfigCommand::List)));
    assert!(matches!(config_args(&args(&["rollback", "v"])), Ok(ConfigCommand::Rollback { version }) if version == "v"));
    assert_eq!(config_args(&args(&["rollback"])).unwrap_err(), "Verwendung: ibrief config rollback <version>");
    assert_eq!(config_args(&args(&["x"])).unwrap_err(), "unbekannter config-Befehl 'x' (erwartet: list | rollback)");
    assert!(experiment_args(&args(&["list"])).is_ok());
    assert_eq!(experiment_args(&args(&["x"])).unwrap_err(), "unbekannter experiment-Befehl 'x' (erwartet: list)");
    assert_eq!(sources_args(&args(&[])), Ok(SourcesCommand::List));
    assert_eq!(sources_args(&args(&["evolve"])), Ok(SourcesCommand::Evolve));
    assert_eq!(sources_args(&args(&["x"])).unwrap_err(), "unbekannter sources-Befehl 'x' (erwartet: list | evolve)");
}

#[test]
fn a_question_is_made_of_words() {
    assert_eq!(research_question(&args(&["Was", "ist", "neu?"])).unwrap(), "Was ist neu?");
    assert_eq!(research_question(&args(&[])).unwrap_err(), "Verwendung: ibrief research <frage>");
}

#[test]
fn missing_settings_fall_back_or_fail() {
    assert_eq!(local_judge("", "synth"), "synth");
    assert_eq!(local_judge("judge", "synth"), "judge");
    assert!(check_chat("1").is_ok());
    assert_eq!(check_chat("").unwrap_err(), "telegram.chat_id ist leer (config/profile.toml)");
}
