use ibrief::llm::{
    is_success, ChatReply, ClaudeCodeModel, CommandReply, Completion, ModelError, OllamaClient, TEMPERATURE_1,
    TEMPERATURE_2, TEMPERATURE_3, TEMPERATURE_4, TEMPERATURE_6, TEMPERATURE_7,
};

#[test]
fn infrastructure_failures_are_told_apart() {
    assert!(ModelError::Unreachable("x".into()).is_infrastructure());
    assert!(ModelError::Timeout(1).is_infrastructure());
    assert!(ModelError::Status { status: 500, body: String::new() }.is_infrastructure());
    assert!(ModelError::Status { status: 503, body: String::new() }.is_infrastructure());
    assert!(!ModelError::Status { status: 499, body: String::new() }.is_infrastructure());
    assert!(!ModelError::Decode("x".into()).is_infrastructure());
    assert!(!ModelError::Other("x".into()).is_infrastructure());
}

#[test]
fn errors_have_messages() {
    assert_eq!(ModelError::Unreachable("x".into()).message(), "Modell-Backend nicht erreichbar: x");
    assert_eq!(ModelError::Timeout(300).message(), "Zeitüberschreitung nach 300s");
    assert_eq!(ModelError::Status { status: 404, body: "b".into() }.message(), "Backend-Fehlerstatus 404: b");
    assert_eq!(ModelError::Decode("x".into()).message(), "Antwort dekodieren: x");
    assert_eq!(ModelError::Other("x".into()).message(), "x");
}

#[test]
fn temperatures_are_the_documented_numbers() {
    let bits = [TEMPERATURE_1, TEMPERATURE_2, TEMPERATURE_3, TEMPERATURE_4, TEMPERATURE_6, TEMPERATURE_7];
    let numbers: Vec<f32> = bits.into_iter().map(f32::from_bits).collect();
    assert_eq!(numbers, vec![0.1, 0.2, 0.3, 0.4, 0.6, 0.7]);
}

#[test]
fn requests_are_built_step_by_step() {
    let c = Completion::new("p".into());
    assert_eq!(c.prompt, "p");
    assert_eq!(c.system, None);
    assert_eq!(f32::from_bits(c.temperature), 0.4);
    assert_eq!(c.max_tokens, None);
    let c = c.with_system("s").temperature(0.9_f32.to_bits()).max_tokens(5).clone();
    assert_eq!(c.system.as_deref(), Some("s"));
    assert_eq!(f32::from_bits(c.temperature), 0.9);
    assert_eq!(c.max_tokens, Some(5));
}

#[test]
fn ollama_gets_a_chat() {
    let o = OllamaClient::new("http://localhost:11434//".into(), "qwen".into());
    assert_eq!(o.label(), "ollama:qwen");
    assert_eq!(o.chat_url(), "http://localhost:11434/api/chat");
    let chat = o.chat_request(&Completion::new("p".into()).with_system("s").max_tokens(7));
    assert_eq!(chat.model, "qwen");
    assert!(!chat.stream);
    assert_eq!(chat.keep_alive, "30m");
    assert_eq!(chat.options.num_ctx, 8192);
    assert_eq!(chat.options.num_predict, 7);
    let said: Vec<(&str, &str)> = chat.messages.iter().map(|m| (m.role.as_str(), m.content.as_str())).collect();
    assert_eq!(said, vec![("system", "s"), ("user", "p")]);
    let o = o.with_keep_alive("0".into()).with_num_ctx(10);
    let chat = o.chat_request(&Completion::new("p".into()));
    assert_eq!((chat.keep_alive.as_str(), chat.options.num_ctx, chat.options.num_predict), ("0", 10, -1));
    assert_eq!(chat.messages.len(), 1);
    assert_eq!(o.chat_request(&Completion::new("p".into()).max_tokens(u32::MAX)).options.num_predict, -1);
    assert_eq!(o.chat_request(&Completion::new("p".into()).max_tokens(1 << 31)).options.num_predict, i32::MIN);
}

#[test]
fn ollama_replies_are_read() {
    let o = OllamaClient::new("http://h".into(), "m".into());
    assert_eq!(o.chat_result(ChatReply::Answered { content: "ok".into() }).unwrap(), "ok");
    let error = |r: ChatReply| o.chat_result(r).unwrap_err();
    assert!(matches!(error(ChatReply::TimedOut), ModelError::Timeout(300)));
    assert!(matches!(error(ChatReply::NotSent { error: "e".into() }),
        ModelError::Unreachable(s) if s == "http://h/api/chat: e"));
    assert!(matches!(error(ChatReply::Refused { status: 500, body: "b".into() }),
        ModelError::Status { status: 500, body } if body == "b"));
    assert!(matches!(error(ChatReply::Undecoded { error: "e".into() }), ModelError::Decode(s) if s == "e"));
    assert!(is_success(200) && is_success(299) && !is_success(199) && !is_success(300));
}

#[test]
fn a_command_gets_arguments() {
    let m = ClaudeCodeModel::new("cmd".into(), Some("opus".into()));
    assert_eq!(m.binary, "cmd");
    assert_eq!(m.label(), "cmd-code(abo)");
    assert_eq!(m.timeout_seconds, 120);
    let req = Completion::new("p".into()).with_system("s");
    assert_eq!(m.arguments(&req), vec!["-p", "s\n\np", "--output-format", "json", "--model", "opus"]);
    let m = ClaudeCodeModel::new("cmd".into(), None);
    assert_eq!(m.arguments(&Completion::new("p".into())), vec!["-p", "p", "--output-format", "json"]);
}

#[test]
fn command_replies_are_read() {
    let m = ClaudeCodeModel::new("cmd".into(), None);
    assert_eq!(m.command_result(CommandReply::Answered { result: "ok".into() }).unwrap(), "ok");
    let error = |r: CommandReply| m.command_result(r).unwrap_err();
    assert!(matches!(error(CommandReply::TimedOut), ModelError::Timeout(120)));
    assert!(matches!(error(CommandReply::NotStarted { error: "e".into() }),
        ModelError::Unreachable(s) if s == "`cmd` nicht ausführbar: e"));
    assert!(matches!(error(CommandReply::Failed { status: "1".into(), stderr: "x".into() }),
        ModelError::Other(s) if s == "cmd beendet mit 1: x"));
    assert!(matches!(error(CommandReply::Undecoded { error: "e".into() }),
        ModelError::Decode(s) if s == "`cmd --output-format json`: e"));
}
