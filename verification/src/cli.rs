//! The command line: which command is meant, and with what.

use crate::feedback::{kind_of, FeedbackKind};
use crate::number::{parse_integer, parsed_integer};
use crate::scan::{has_part, part_stands_between};
use crate::text::{holds, join, joined, opt_text, same, views};
use vstd::prelude::*;

verus! {

/// The commands.
#[derive(Clone, Copy, Debug, PartialEq, Eq, Structural)]
pub enum Command {
    Brief,
    Feedback,
    Eval,
    Bench,
    Learn,
    Config,
    Optimize,
    Experiment,
    Sources,
    Research,
}

/// The command of a name, if it is one.
pub open spec fn command_of(name: Seq<char>) -> Option<Command> {
    if name == "brief"@ {
        Some(Command::Brief)
    } else if name == "feedback"@ {
        Some(Command::Feedback)
    } else if name == "eval"@ {
        Some(Command::Eval)
    } else if name == "bench"@ {
        Some(Command::Bench)
    } else if name == "learn"@ {
        Some(Command::Learn)
    } else if name == "config"@ {
        Some(Command::Config)
    } else if name == "optimize"@ {
        Some(Command::Optimize)
    } else if name == "experiment"@ {
        Some(Command::Experiment)
    } else if name == "sources"@ {
        Some(Command::Sources)
    } else if name == "research"@ {
        Some(Command::Research)
    } else {
        None
    }
}

/// What is said of something that is not known.
pub open spec fn unknown_text(what: Seq<char>, name: Seq<char>, expected: Seq<char>) -> Seq<char> {
    "unbekannter "@ + what + " '"@ + name + "' (erwartet: "@ + expected + ")"@
}

/// Says that something is not known.
fn unknown(what: &str, name: &str, expected: &str) -> (r: String)
    ensures
        r@ == unknown_text(what@, name@, expected@),
{
    let mut out = String::new();
    out.append("unbekannter ");
    out.append(what);
    out.append(" '");
    out.append(name);
    out.append("' (erwartet: ");
    out.append(expected);
    out.append(")");
    assert(out@ =~= unknown_text(what@, name@, expected@));
    out
}

/// Finds the command of a name; otherwise says that there is none.
pub fn parse_command(name: &str) -> (r: Result<Command, String>)
    ensures
        match r {
            Ok(c) => command_of(name@) == Some(c),
            Err(e) => command_of(name@) is None && e@ == unknown_text(
                "Befehl"@,
                name@,
                "brief | feedback | eval | bench | learn | config | optimize | experiment | sources | research"@,
            ),
        },
{
    if same(name, "brief") {
        Ok(Command::Brief)
    } else if same(name, "feedback") {
        Ok(Command::Feedback)
    } else if same(name, "eval") {
        Ok(Command::Eval)
    } else if same(name, "bench") {
        Ok(Command::Bench)
    } else if same(name, "learn") {
        Ok(Command::Learn)
    } else if same(name, "config") {
        Ok(Command::Config)
    } else if same(name, "optimize") {
        Ok(Command::Optimize)
    } else if same(name, "experiment") {
        Ok(Command::Experiment)
    } else if same(name, "sources") {
        Ok(Command::Sources)
    } else if same(name, "research") {
        Ok(Command::Research)
    } else {
        Err(
            unknown(
                "Befehl",
                name,
                "brief | feedback | eval | bench | learn | config | optimize | experiment | sources | research",
            ),
        )
    }
}

/// The arguments from the place `from` on.
fn rest_of(args: &Vec<String>, from: usize) -> (r: Vec<String>)
    requires
        from <= args@.len(),
    ensures
        views(r@) == views(args@).skip(from as int),
{
    let ghost all = views(args@);
    let mut out: Vec<String> = Vec::new();
    let mut i: usize = from;
    assert(views(out@) =~= all.subrange(from as int, from as int));
    while i < args.len()
        invariant
            from <= i <= args@.len(),
            all == views(args@),
            views(out@) == all.subrange(from as int, i as int),
        decreases args.len() - i,
    {
        let ghost prev = out@;
        out.push(args[i].clone());
        assert(views(out@) =~= views(prev).push(all[i as int]));
        assert(all.subrange(from as int, i + 1) =~= all.subrange(from as int, i as int).push(all[i as int]));
        i = i + 1;
    }
    assert(all.subrange(from as int, i as int) =~= all.skip(from as int));
    out
}

/// Separates the name of the command, `brief` where there is none, from its arguments.
pub fn split_args(args: &Vec<String>) -> (r: (String, Vec<String>))
    ensures
        args@.len() == 0 ==> r.0@ == "brief"@ && r.1@.len() == 0,
        args@.len() > 0 ==> r.0@ == args@[0]@ && views(r.1@) == views(args@).skip(1),
{
    if args.len() == 0 {
        ("brief".to_string(), Vec::new())
    } else {
        (args[0].clone(), rest_of(args, 1))
    }
}

/// The first argument that is none of the given words.
pub open spec fn first_other(args: Seq<Seq<char>>, words: Seq<Seq<char>>) -> Option<Seq<char>>
    decreases args.len(),
{
    if args.len() == 0 {
        None
    } else {
        match first_other(args.drop_last(), words) {
            Some(a) => Some(a),
            None => if words.contains(args.last()) {
                None
            } else {
                Some(args.last())
            },
        }
    }
}

/// Finds the first argument that is none of the given words.
fn find_other(args: &Vec<String>, words: &Vec<String>) -> (r: Option<String>)
    ensures
        opt_text(r) == first_other(views(args@), views(words@)),
{
    let ghost all = views(args@);
    let ghost known = views(words@);
    let mut found: Option<String> = None;
    let mut i: usize = 0;
    while i < args.len()
        invariant
            i <= args@.len(),
            all == views(args@),
            known == views(words@),
            opt_text(found) == first_other(all.take(i as int), known),
        decreases args.len() - i,
    {
        proof {
            assert(all.take(i + 1).drop_last() =~= all.take(i as int));
            assert(all.take(i + 1).last() == args@[i as int]@);
        }
        if found.is_none() && !holds(words, &args[i]) {
            found = Some(args[i].clone());
        }
        i = i + 1;
    }
    assert(all.take(i as int) =~= all);
    found
}

/// An argument, or else what stands in for it.
pub open spec fn or_else(o: Option<Seq<char>>, default: Seq<char>) -> Seq<char> {
    match o {
        Some(s) => s,
        None => default,
    }
}

/// Takes an argument, or else what stands in for it.
fn arg_or(o: Option<String>, default: &str) -> (r: String)
    ensures
        r@ == or_else(opt_text(o), default@),
{
    match o {
        Some(s) => s,
        None => default.to_string(),
    }
}

/// Whether a briefing is to be made anew although there may be one for the day.
pub fn is_forced(rest: &Vec<String>) -> (r: bool)
    ensures
        r == (views(rest@).contains("--force"@) || views(rest@).contains("force"@)),
{
    holds(rest, "--force") || holds(rest, "force")
}

/// What is assessed, and by whom.
#[derive(Debug)]
pub struct EvalArgs {
    pub calibrate: bool,
    pub date: String,
}

/// Reads the arguments of `eval`: the first that is no keyword is the day.
pub fn eval_args(rest: &Vec<String>, today: &str) -> (r: EvalArgs)
    ensures
        r.calibrate == views(rest@).contains("calibrate"@),
        r.date@ == or_else(first_other(views(rest@), seq!["calibrate"@]), today@),
{
    let mut words: Vec<String> = Vec::new();
    words.push("calibrate".to_string());
    assert(views(words@) =~= seq!["calibrate"@]);
    EvalArgs { calibrate: holds(rest, "calibrate"), date: arg_or(find_other(rest, &words), today) }
}

/// What is compared.
#[derive(Debug)]
pub enum BenchArgs {
    /// The history is shown.
    List,
    /// Models are compared.
    Run { calibrate: bool, enrich: bool, date: String },
}

/// The keywords of `bench`.
pub open spec fn bench_words() -> Seq<Seq<char>> {
    seq!["calibrate"@, "enrich"@, "synth"@, "list"@]
}

/// Reads the arguments of `bench`: the first that is no keyword is the day.
pub fn bench_args(rest: &Vec<String>, today: &str) -> (r: BenchArgs)
    ensures
        match r {
            BenchArgs::List => views(rest@).contains("list"@),
            BenchArgs::Run { calibrate, enrich, date } => !views(rest@).contains("list"@) && calibrate == views(
                rest@,
            ).contains("calibrate"@) && enrich == views(rest@).contains("enrich"@) && date@ == or_else(
                first_other(views(rest@), bench_words()),
                today@,
            ),
        },
{
    if holds(rest, "list") {
        return BenchArgs::List;
    }
    let mut words: Vec<String> = Vec::new();
    words.push("calibrate".to_string());
    words.push("enrich".to_string());
    words.push("synth".to_string());
    words.push("list".to_string());
    assert(views(words@) =~= bench_words());
    BenchArgs::Run {
        calibrate: holds(rest, "calibrate"),
        enrich: holds(rest, "enrich"),
        date: arg_or(find_other(rest, &words), today),
    }
}

/// On what a prompt is improved, and by whom.
#[derive(Debug)]
pub struct OptimizeArgs {
    pub calibrate: bool,
    /// The day; the latest days where there is none.
    pub date: Option<String>,
}

/// Reads the arguments of `optimize`.
pub fn optimize_args(rest: &Vec<String>) -> (r: OptimizeArgs)
    ensures
        r.calibrate == views(rest@).contains("calibrate"@),
        opt_text(r.date) == first_other(views(rest@), seq!["calibrate"@]),
{
    let mut words: Vec<String> = Vec::new();
    words.push("calibrate".to_string());
    assert(views(words@) =~= seq!["calibrate"@]);
    OptimizeArgs { calibrate: holds(rest, "calibrate"), date: find_other(rest, &words) }
}

/// What is done about feedback.
#[derive(Debug)]
pub enum FeedbackCommand {
    /// The items of a day are listed.
    List { date: String },
    /// Feedback is added.
    Add { position: i64, kind: FeedbackKind, date: String },
    /// The chat is listened to.
    Listen,
}

/// What feedback is to be added, or what is wrong with the arguments.
pub open spec fn added_feedback(args: Seq<Seq<char>>, today: Seq<char>) -> Result<
    (i64, FeedbackKind, Seq<char>),
    Seq<char>,
> {
    if args.len() == 0 {
        Err("Position fehlt: ibrief feedback add <position> <art> [datum]"@)
    } else if parsed_integer(args[0]) is None {
        Err("Position muss eine Zahl sein"@)
    } else if args.len() == 1 {
        Err("Art fehlt (up|down|more|less|open)"@)
    } else if kind_of(args[1]) is None {
        Err("ungültige Art '"@ + args[1] + "' (up|down|more|less|open)"@)
    } else {
        Ok(
            (
                parsed_integer(args[0])->0,
                kind_of(args[1])->0,
                if args.len() > 2 {
                    args[2]
                } else {
                    today
                },
            ),
        )
    }
}

/// Reads the arguments of `feedback`.
pub fn feedback_args(rest: &Vec<String>, today: &str) -> (r: Result<FeedbackCommand, String>)
    ensures
        ({
            let args = views(rest@);
            if args.len() > 0 && args[0] == "list"@ {
                r is Ok && r->Ok_0 is List && r->Ok_0->List_date@ == (if args.len() > 1 {
                    args[1]
                } else {
                    today@
                })
            } else if args.len() > 0 && args[0] == "add"@ {
                match added_feedback(args.skip(1), today@) {
                    Ok((position, kind, date)) => r is Ok && r->Ok_0 is Add && r->Ok_0->position == position
                        && r->Ok_0->kind == kind && r->Ok_0->Add_date@ == date,
                    Err(e) => r is Err && r->Err_0@ == e,
                }
            } else {
                r is Ok && r->Ok_0 is Listen
            }
        }),
{
    let ghost args = views(rest@);
    let n: usize = rest.len();
    if n > 0 && same(&rest[0], "list") {
        assert(args[0] == rest@[0]@);
        let date = if n > 1 {
            rest[1].clone()
        } else {
            today.to_string()
        };
        return Ok(FeedbackCommand::List { date });
    }
    if n > 0 && same(&rest[0], "add") {
        assert(args[0] == rest@[0]@);
        let ghost given = args.skip(1);
        if n == 1 {
            return Err("Position fehlt: ibrief feedback add <position> <art> [datum]".to_string());
        }
        assert(given[0] == rest@[1]@);
        match parse_integer(&rest[1]) {
            None => {
                return Err("Position muss eine Zahl sein".to_string());
            },
            Some(position) => {
                if n == 2 {
                    return Err("Art fehlt (up|down|more|less|open)".to_string());
                }
                assert(given[1] == rest@[2]@);
                match FeedbackKind::parse(&rest[2]) {
                    None => {
                        let mut text = String::new();
                        text.append("ungültige Art '");
                        text.append(&rest[2]);
                        text.append("' (up|down|more|less|open)");
                        assert(text@ =~= "ungültige Art '"@ + given[1] + "' (up|down|more|less|open)"@);
                        return Err(text);
                    },
                    Some(kind) => {
                        let date = if n > 3 {
                            assert(given[2] == rest@[3]@);
                            rest[3].clone()
                        } else {
                            today.to_string()
                        };
                        return Ok(FeedbackCommand::Add { position, kind, date });
                    },
                }
            },
        }
    }
    if n > 0 {
        assert(args[0] == rest@[0]@);
    }
    Ok(FeedbackCommand::Listen)
}

/// The first argument, `list` where there is none.
pub open spec fn subcommand(args: Seq<Seq<char>>) -> Seq<char> {
    if args.len() > 0 {
        args[0]
    } else {
        "list"@
    }
}

/// Takes the first argument.
fn first_or_list(rest: &Vec<String>) -> (r: String)
    ensures
        r@ == subcommand(views(rest@)),
{
    if rest.len() > 0 {
        rest[0].clone()
    } else {
        "list".to_string()
    }
}

/// What is done about configurations.
#[derive(Debug)]
pub enum ConfigCommand {
    List,
    Rollback { version: String },
}

/// Reads the arguments of `config`.
pub fn config_args(rest: &Vec<String>) -> (r: Result<ConfigCommand, String>)
    ensures
        ({
            let sub = subcommand(views(rest@));
            if sub == "list"@ {
                r is Ok && r->Ok_0 is List
            } else if sub == "rollback"@ {
                if rest@.len() > 1 {
                    r is Ok && r->Ok_0 is Rollback && r->Ok_0->version@ == rest@[1]@
                } else {
                    r is Err && r->Err_0@ == "Verwendung: ibrief config rollback <version>"@
                }
            } else {
                r is Err && r->Err_0@ == unknown_text("config-Befehl"@, sub, "list | rollback"@)
            }
        }),
{
    let sub = first_or_list(rest);
    if same(&sub, "list") {
        Ok(ConfigCommand::List)
    } else if same(&sub, "rollback") {
        if rest.len() > 1 {
            Ok(ConfigCommand::Rollback { version: rest[1].clone() })
        } else {
            Err("Verwendung: ibrief config rollback <version>".to_string())
        }
    } else {
        Err(unknown("config-Befehl", &sub, "list | rollback"))
    }
}

/// Reads the arguments of `experiment`, which only lists.
pub fn experiment_args(rest: &Vec<String>) -> (r: Result<(), String>)
    ensures
        ({
            let sub = subcommand(views(rest@));
            match r {
                Ok(_) => sub == "list"@,
                Err(e) => sub != "list"@ && e@ == unknown_text("experiment-Befehl"@, sub, "list"@),
            }
        }),
{
    let sub = first_or_list(rest);
    if same(&sub, "list") {
        Ok(())
    } else {
        Err(unknown("experiment-Befehl", &sub, "list"))
    }
}

/// What is done about sources.
#[derive(Clone, Copy, Debug, PartialEq, Eq, Structural)]
pub enum SourcesCommand {
    List,
    Evolve,
}

/// Reads the arguments of `sources`.
pub fn sources_args(rest: &Vec<String>) -> (r: Result<SourcesCommand, String>)
    ensures
        ({
            let sub = subcommand(views(rest@));
            match r {
                Ok(SourcesCommand::List) => sub == "list"@,
                Ok(SourcesCommand::Evolve) => sub == "evolve"@,
                Err(e) => sub != "list"@ && sub != "evolve"@ && e@ == unknown_text(
                    "sources-Befehl"@,
                    sub,
                    "list | evolve"@,
                ),
            }
        }),
{
    let sub = first_or_list(rest);
    if same(&sub, "list") {
        Ok(SourcesCommand::List)
    } else if same(&sub, "evolve") {
        Ok(SourcesCommand::Evolve)
    } else {
        Err(unknown("sources-Befehl", &sub, "list | evolve"))
    }
}

/// Puts the question together; without words there is none.
pub fn research_question(rest: &Vec<String>) -> (r: Result<String, String>)
    ensures
        match r {
            Ok(q) => rest@.len() > 0 && q@ == joined(views(rest@), " "@),
            Err(e) => rest@.len() == 0 && e@ == "Verwendung: ibrief research <frage>"@,
        },
{
    if rest.len() == 0 {
        Err("Verwendung: ibrief research <frage>".to_string())
    } else {
        Ok(join(rest, " "))
    }
}

/// The model that judges locally: the one for judging, or else the one for the synthesis.
pub fn local_judge<'a>(judge_model: &'a str, synth_model: &'a str) -> (r: &'a str)
    ensures
        r@ == if judge_model@.len() == 0 {
            synth_model@
        } else {
            judge_model@
        },
{
    if judge_model.is_empty() {
        synth_model
    } else {
        judge_model
    }
}

/// Whether the chat is configured; otherwise what is missing.
pub fn check_chat(chat_id: &str) -> (r: Result<(), String>)
    ensures
        match r {
            Ok(_) => chat_id@.len() > 0,
            Err(e) => chat_id@.len() == 0 && e@ == "telegram.chat_id ist leer (config/profile.toml)"@,
        },
{
    if chat_id.is_empty() {
        Err("telegram.chat_id ist leer (config/profile.toml)".to_string())
    } else {
        Ok(())
    }
}

/// The name of a command.
pub open spec fn command_name(c: Command) -> Seq<char> {
    match c {
        Command::Brief => "brief"@,
        Command::Feedback => "feedback"@,
        Command::Eval => "eval"@,
        Command::Bench => "bench"@,
        Command::Learn => "learn"@,
        Command::Config => "config"@,
        Command::Optimize => "optimize"@,
        Command::Experiment => "experiment"@,
        Command::Sources => "sources"@,
        Command::Research => "research"@,
    }
}

/// Each command goes by its name, and by no other.
pub proof fn commands_go_by_their_names(s: Seq<char>, c: Command)
    ensures
        command_of(s) == Some(c) <==> s == command_name(c),
{
    reveal_strlit("brief");
    reveal_strlit("feedback");
    reveal_strlit("eval");
    reveal_strlit("bench");
    reveal_strlit("learn");
    reveal_strlit("config");
    reveal_strlit("optimize");
    reveal_strlit("experiment");
    reveal_strlit("sources");
    reveal_strlit("research");
    assert("brief"@[1] == 'r' && "bench"@[1] == 'e');
    assert("feedback"@.len() == 8 && "optimize"@.len() == 8 && "research"@.len() == 8);
    assert("feedback"@[0] == 'f' && "optimize"@[0] == 'o' && "research"@[0] == 'r');
    assert("eval"@.len() == 4 && "experiment"@.len() == 10 && "config"@.len() == 6 && "sources"@.len() == 7);
    assert("learn"@[0] == 'l' && "brief"@[0] == 'b' && "bench"@[0] == 'b');
}

/// The first argument that is no keyword counts, wherever the keywords stand.
pub proof fn keywords_are_passed_over(args: Seq<Seq<char>>, words: Seq<Seq<char>>, k: int)
    requires
        0 <= k <= args.len(),
        forall|i: int| 0 <= i < k ==> words.contains(#[trigger] args[i]),
        k < args.len() ==> !words.contains(args[k]),
    ensures
        k < args.len() ==> first_other(args, words) == Some(args[k]),
        k == args.len() ==> first_other(args, words) is None,
    decreases args.len(),
{
    if args.len() > 0 {
        let before = args.drop_last();
        if k < args.len() {
            assert(forall|i: int| 0 <= i < k ==> before[i] == args[i]);
            keywords_are_passed_over(before, words, k);
        } else {
            assert(words.contains(args[args.len() - 1]));
            keywords_are_passed_over(before, words, k - 1);
        }
    }
}

/// Feedback is taken exactly where there are a number and the name of a kind; it is
/// for the day that follows them, or for today.
pub proof fn feedback_needs_a_position_and_a_kind(args: Seq<Seq<char>>, today: Seq<char>)
    ensures
        added_feedback(args, today) is Ok <==> args.len() >= 2 && parsed_integer(args[0]) is Some && kind_of(args[1])
            is Some,
        added_feedback(args, today) is Ok ==> {
            let said = added_feedback(args, today)->Ok_0;
            &&& parsed_integer(args[0]) == Some(said.0)
            &&& kind_of(args[1]) == Some(said.1)
            &&& args.len() == 2 ==> said.2 == today
            &&& args.len() > 2 ==> said.2 == args[2]
        },
{
}

/// The keywords of `bench` are these four, and no other word is one of them.
pub proof fn bench_has_four_keywords(s: Seq<char>)
    ensures
        bench_words().contains(s) <==> s == "calibrate"@ || s == "enrich"@ || s == "synth"@ || s == "list"@,
{
    let words = bench_words();
    assert(words[0] == "calibrate"@ && words[1] == "enrich"@ && words[2] == "synth"@ && words[3] == "list"@);
}

/// What is not given is stood in for: the day by the default, the subcommand by `list`.
pub proof fn defaults_stand_in(args: Seq<Seq<char>>, given: Option<Seq<char>>, default: Seq<char>)
    ensures
        args.len() == 0 ==> subcommand(args) == "list"@,
        args.len() > 0 ==> subcommand(args) == args[0],
        given is Some ==> or_else(given, default) == given->0,
        given is None ==> or_else(given, default) == default,
{
}

/// What is not known is named, with what was expected.
pub proof fn unknown_words_are_named(what: Seq<char>, name: Seq<char>, expected: Seq<char>)
    ensures
        has_part(unknown_text(what, name, expected), what),
        has_part(unknown_text(what, name, expected), name),
        has_part(unknown_text(what, name, expected), expected),
{
    let r = unknown_text(what, name, expected);
    part_stands_between(r, what, "unbekannter "@, " '"@ + name + "' (erwartet: "@ + expected + ")"@);
    assert(r =~= "unbekannter "@ + what + (" '"@ + name + "' (erwartet: "@ + expected + ")"@));
    part_stands_between(r, name, "unbekannter "@ + what + " '"@, "' (erwartet: "@ + expected + ")"@);
    assert(r =~= "unbekannter "@ + what + " '"@ + name + ("' (erwartet: "@ + expected + ")"@));
    part_stands_between(r, expected, "unbekannter "@ + what + " '"@ + name + "' (erwartet: "@, ")"@);
}

} // verus!
