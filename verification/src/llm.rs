//! The gateway to the language models: what is asked of a model, what is sent to
//! each backend, and what is made of the backend's reply.

use crate::number::{decimal, print_number};
use crate::scan::{has_part, part_stands_between, right_trimmed, trim_end, CharClass};
use crate::text::{clone_opt, opt_text, views};
use vstd::prelude::*;

verus! {

/// The temperature 0.1 as the bits of a single-precision number.
pub const TEMPERATURE_1: u32 = 0x3dcc_cccd;

/// The temperature 0.2.
pub const TEMPERATURE_2: u32 = 0x3e4c_cccd;

/// The temperature 0.3.
pub const TEMPERATURE_3: u32 = 0x3e99_999a;

/// The temperature 0.4, which a request has unless it says otherwise.
pub const TEMPERATURE_4: u32 = 0x3ecc_cccd;

/// The temperature 0.6.
pub const TEMPERATURE_6: u32 = 0x3f19_999a;

/// The temperature 0.7.
pub const TEMPERATURE_7: u32 = 0x3f33_3333;

/// How long Ollama keeps a model loaded behind a request.
pub const DEFAULT_KEEP_ALIVE: &'static str = "30m";

/// The size of the context window that Ollama reserves.
pub const DEFAULT_NUM_CTX: u32 = 8192;

/// How many seconds a request to Ollama may take as a whole.
pub const REQUEST_TIMEOUT_SECONDS: u64 = 300;

/// How many seconds Ollama may take to accept a connection.
pub const CONNECT_TIMEOUT_SECONDS: u64 = 10;

/// How many seconds a run of a command may take.
pub const COMMAND_TIMEOUT_SECONDS: u64 = 120;

/// What can go wrong at a model. It keeps failures of the infrastructure (the
/// backend is down, slow or broken) apart from failures of content.
#[derive(Debug)]
pub enum ModelError {
    /// The backend cannot be reached, or its process not be started.
    Unreachable(String),
    /// The request took longer than this many seconds.
    Timeout(u64),
    /// The backend answered with an error status.
    Status { status: u16, body: String },
    /// The answer could not be decoded.
    Decode(String),
    /// Anything else.
    Other(String),
}

/// What a model error is.
pub enum ModelErrorView {
    Unreachable(Seq<char>),
    Timeout(u64),
    Status { status: u16, body: Seq<char> },
    Decode(Seq<char>),
    Other(Seq<char>),
}

impl View for ModelError {
    type V = ModelErrorView;

    open spec fn view(&self) -> ModelErrorView {
        match self {
            ModelError::Unreachable(s) => ModelErrorView::Unreachable(s@),
            ModelError::Timeout(n) => ModelErrorView::Timeout(*n),
            ModelError::Status { status, body } => ModelErrorView::Status { status: *status, body: body@ },
            ModelError::Decode(s) => ModelErrorView::Decode(s@),
            ModelError::Other(s) => ModelErrorView::Other(s@),
        }
    }
}

/// Whether an error lies with the machine that runs the model, not with what it said.
pub open spec fn is_outage(e: ModelErrorView) -> bool {
    match e {
        ModelErrorView::Unreachable(_) => true,
        ModelErrorView::Timeout(_) => true,
        ModelErrorView::Status { status, body } => status >= 500,
        ModelErrorView::Decode(_) => false,
        ModelErrorView::Other(_) => false,
    }
}

/// The message of a model error.
pub open spec fn error_text(e: ModelErrorView) -> Seq<char> {
    match e {
        ModelErrorView::Unreachable(s) => "Modell-Backend nicht erreichbar: "@ + s,
        ModelErrorView::Timeout(n) => "Zeitüberschreitung nach "@ + decimal(n as nat) + "s"@,
        ModelErrorView::Status { status, body } => "Backend-Fehlerstatus "@ + decimal(status as nat) + ": "@ + body,
        ModelErrorView::Decode(s) => "Antwort dekodieren: "@ + s,
        ModelErrorView::Other(s) => s,
    }
}

impl ModelError {
    /// Whether the infrastructure failed: the backend is unreachable, too slow,
    /// or answers with a status from 500 on.
    pub fn is_infrastructure(&self) -> (r: bool)
        ensures
            r == is_outage(self@),
            r == match self@ {
                ModelErrorView::Unreachable(_) => true,
                ModelErrorView::Timeout(_) => true,
                ModelErrorView::Status { status, body } => status >= 500,
                ModelErrorView::Decode(_) => false,
                ModelErrorView::Other(_) => false,
            },
    {
        match self {
            ModelError::Unreachable(_) => true,
            ModelError::Timeout(_) => true,
            ModelError::Status { status, .. } => *status >= 500,
            ModelError::Decode(_) => false,
            ModelError::Other(_) => false,
        }
    }

    /// The message for people.
    pub fn message(&self) -> (r: String)
        ensures
            r@ == error_text(self@),
    {
        let mut out = String::new();
        match self {
            ModelError::Unreachable(s) => {
                out.append("Modell-Backend nicht erreichbar: ");
                out.append(s);
            },
            ModelError::Timeout(n) => {
                out.append("Zeitüberschreitung nach ");
                out.append(&print_number(*n));
                out.append("s");
            },
            ModelError::Status { status, body } => {
                out.append("Backend-Fehlerstatus ");
                out.append(&print_number(*status as u64));
                out.append(": ");
                out.append(body);
            },
            ModelError::Decode(s) => {
                out.append("Antwort dekodieren: ");
                out.append(s);
            },
            ModelError::Other(s) => {
                out.append(s);
            },
        }
        assert(out@ =~= error_text(self@));
        out
    }
}

/// A request to a language model.
#[derive(Debug)]
pub struct Completion {
    pub system: Option<String>,
    pub prompt: String,
    /// The temperature, as the bits of a single-precision number.
    pub temperature: u32,
    /// How many tokens the answer may have; without a limit where there is none.
    pub max_tokens: Option<u32>,
}

/// What a request is.
#[verifier::ext_equal]
pub struct CompletionView {
    pub system: Option<Seq<char>>,
    pub prompt: Seq<char>,
    pub temperature: u32,
    pub max_tokens: Option<u32>,
}

impl View for Completion {
    type V = CompletionView;

    open spec fn view(&self) -> CompletionView {
        CompletionView {
            system: opt_text(self.system),
            prompt: self.prompt@,
            temperature: self.temperature,
            max_tokens: self.max_tokens,
        }
    }
}

/// A request with nothing but a prompt.
pub open spec fn plain_request(prompt: Seq<char>) -> CompletionView {
    CompletionView { system: None, prompt, temperature: TEMPERATURE_4, max_tokens: None }
}

impl Completion {
    pub fn new(prompt: String) -> (r: Completion)
        ensures
            r@ == plain_request(prompt@),
    {
        Completion { system: None, prompt, temperature: TEMPERATURE_4, max_tokens: None }
    }

    pub fn with_system(self, system: &str) -> (r: Completion)
        ensures
            r@ == (CompletionView { system: Some(system@), ..self@ }),
    {
        Completion { system: Some(system.to_string()), ..self }
    }

    /// Sets the temperature, given as the bits of a single-precision number.
    pub fn temperature(self, bits: u32) -> (r: Completion)
        ensures
            r@ == (CompletionView { temperature: bits, ..self@ }),
    {
        Completion { temperature: bits, ..self }
    }

    /// Limits the answer to `n` tokens.
    pub fn max_tokens(self, n: u32) -> (r: Completion)
        ensures
            r@ == (CompletionView { max_tokens: Some(n), ..self@ }),
    {
        Completion { max_tokens: Some(n), ..self }
    }
}

impl Clone for Completion {
    fn clone(&self) -> (r: Self)
        ensures
            r@ == self@,
    {
        Completion {
            system: clone_opt(&self.system),
            prompt: self.prompt.clone(),
            temperature: self.temperature,
            max_tokens: self.max_tokens,
        }
    }
}

/// A model that a local Ollama serves.
#[derive(Debug)]
pub struct OllamaClient {
    pub base_url: String,
    pub model: String,
    pub label: String,
    pub keep_alive: String,
    pub num_ctx: u32,
}

/// What an Ollama model is.
#[verifier::ext_equal]
pub struct OllamaView {
    pub base_url: Seq<char>,
    pub model: Seq<char>,
    pub label: Seq<char>,
    pub keep_alive: Seq<char>,
    pub num_ctx: u32,
}

impl View for OllamaClient {
    type V = OllamaView;

    open spec fn view(&self) -> OllamaView {
        OllamaView {
            base_url: self.base_url@,
            model: self.model@,
            label: self.label@,
            keep_alive: self.keep_alive@,
            num_ctx: self.num_ctx,
        }
    }
}

/// One message of a chat.
#[derive(Debug)]
pub struct ChatMessage {
    pub role: String,
    pub content: String,
}

/// What a message is: who speaks, and what is said.
#[verifier::ext_equal]
pub struct MessageView {
    pub role: Seq<char>,
    pub content: Seq<char>,
}

impl View for ChatMessage {
    type V = MessageView;

    open spec fn view(&self) -> MessageView {
        MessageView { role: self.role@, content: self.content@ }
    }
}

/// The options of a chat.
#[derive(Clone, Copy, Debug, PartialEq, Eq, Structural)]
pub struct ChatOptions {
    /// The temperature, as the bits of a single-precision number.
    pub temperature: u32,
    pub num_ctx: u32,
    /// How many tokens may be generated; -1 for no limit.
    pub num_predict: i32,
}

/// What is sent to Ollama.
#[derive(Debug)]
pub struct ChatRequest {
    pub model: String,
    pub messages: Vec<ChatMessage>,
    pub stream: bool,
    pub keep_alive: String,
    pub options: ChatOptions,
}

/// What a chat request is.
#[verifier::ext_equal]
pub struct ChatView {
    pub model: Seq<char>,
    pub messages: Seq<MessageView>,
    pub stream: bool,
    pub keep_alive: Seq<char>,
    pub options: ChatOptions,
}

impl View for ChatRequest {
    type V = ChatView;

    open spec fn view(&self) -> ChatView {
        ChatView {
            model: self.model@,
            messages: views(self.messages@),
            stream: self.stream,
            keep_alive: self.keep_alive@,
            options: self.options,
        }
    }
}

/// The messages of a request: what the system says, if anything, then the prompt.
pub open spec fn chat_messages(c: CompletionView) -> Seq<MessageView> {
    let user = MessageView { role: "user"@, content: c.prompt };
    match c.system {
        Some(s) => seq![MessageView { role: "system"@, content: s }, user],
        None => seq![user],
    }
}

/// The limit on the generated tokens as Ollama takes it: a signed number of 32
/// bits, -1 where there is none. A limit of more than 31 bits wraps around.
pub open spec fn predicted_tokens(limit: Option<u32>) -> int {
    match limit {
        Some(n) => if n <= i32::MAX {
            n as int
        } else {
            n - 0x1_0000_0000
        },
        None => -1,
    }
}

/// What is sent to Ollama for a request.
pub open spec fn chat_for(o: OllamaView, c: CompletionView) -> ChatView {
    ChatView {
        model: o.model,
        messages: chat_messages(c),
        stream: false,
        keep_alive: o.keep_alive,
        options: ChatOptions {
            temperature: c.temperature,
            num_ctx: o.num_ctx,
            num_predict: predicted_tokens(c.max_tokens) as i32,
        },
    }
}

/// How the exchange with Ollama ended.
#[derive(Debug)]
pub enum ChatReply {
    /// The time ran out.
    TimedOut,
    /// The request did not get through.
    NotSent { error: String },
    /// An answer with a status that is no success.
    Refused { status: u16, body: String },
    /// An answer that is no chat answer.
    Undecoded { error: String },
    /// The content of the answer.
    Answered { content: String },
}

/// Whether a status of HTTP is a success.
pub fn is_success(status: u16) -> (r: bool)
    ensures
        r == (200 <= status <= 299),
{
    200 <= status && status <= 299
}

/// What an exchange at `url` comes to.
pub open spec fn chat_outcome(url: Seq<char>, reply: ChatReply) -> Result<Seq<char>, ModelErrorView> {
    match reply {
        ChatReply::TimedOut => Err(ModelErrorView::Timeout(REQUEST_TIMEOUT_SECONDS)),
        ChatReply::NotSent { error } => Err(ModelErrorView::Unreachable(url + ": "@ + error@)),
        ChatReply::Refused { status, body } => Err(ModelErrorView::Status { status, body: body@ }),
        ChatReply::Undecoded { error } => Err(ModelErrorView::Decode(error@)),
        ChatReply::Answered { content } => Ok(content@),
    }
}

/// The view of what a model gives back.
pub open spec fn answer_view(r: Result<String, ModelError>) -> Result<Seq<char>, ModelErrorView> {
    match r {
        Ok(s) => Ok(s@),
        Err(e) => Err(e@),
    }
}

impl OllamaClient {
    pub fn new(base_url: String, model: String) -> (r: OllamaClient)
        ensures
            r@ == (OllamaView {
                base_url: base_url@,
                model: model@,
                label: "ollama:"@ + model@,
                keep_alive: DEFAULT_KEEP_ALIVE@,
                num_ctx: DEFAULT_NUM_CTX,
            }),
    {
        let mut label = String::new();
        label.append("ollama:");
        label.append(&model);
        assert(label@ =~= "ollama:"@ + model@);
        OllamaClient {
            base_url,
            label,
            model,
            keep_alive: DEFAULT_KEEP_ALIVE.to_string(),
            num_ctx: DEFAULT_NUM_CTX,
        }
    }

    /// Sets how long the model stays loaded.
    pub fn with_keep_alive(self, keep_alive: String) -> (r: OllamaClient)
        ensures
            r@ == (OllamaView { keep_alive: keep_alive@, ..self@ }),
    {
        OllamaClient { keep_alive, ..self }
    }

    /// Sets the size of the context window.
    pub fn with_num_ctx(self, num_ctx: u32) -> (r: OllamaClient)
        ensures
            r@ == (OllamaView { num_ctx, ..self@ }),
    {
        OllamaClient { num_ctx, ..self }
    }

    pub fn label(&self) -> (r: &str)
        ensures
            r@ == self@.label,
    {
        self.label.as_str()
    }

    /// Where chats are sent: below the base address, without doubled slashes.
    pub fn chat_url(&self) -> (r: String)
        ensures
            r@ == right_trimmed(self@.base_url, CharClass::Slash) + "/api/chat"@,
    {
        let mut out = trim_end(&self.base_url, CharClass::Slash);
        out.append("/api/chat");
        out
    }

    /// What is sent for a request.
    pub fn chat_request(&self, req: &Completion) -> (r: ChatRequest)
        ensures
            r@ == chat_for(self@, req@),
    {
        let mut messages: Vec<ChatMessage> = Vec::new();
        match &req.system {
            Some(s) => {
                messages.push(ChatMessage { role: "system".to_string(), content: s.clone() });
            },
            None => {},
        }
        messages.push(ChatMessage { role: "user".to_string(), content: req.prompt.clone() });
        assert(views(messages@) =~= chat_messages(req@));
        let num_predict: i32 = match req.max_tokens {
            Some(n) => if n <= 0x7fff_ffff {
                n as i32
            } else {
                (n as i64 - 0x1_0000_0000) as i32
            },
            None => -1,
        };
        ChatRequest {
            model: self.model.clone(),
            messages,
            stream: false,
            keep_alive: self.keep_alive.clone(),
            options: ChatOptions { temperature: req.temperature, num_ctx: self.num_ctx, num_predict },
        }
    }

    /// What is made of the reply.
    pub fn chat_result(&self, reply: ChatReply) -> (r: Result<String, ModelError>)
        ensures
            answer_view(r) == chat_outcome(
                right_trimmed(self@.base_url, CharClass::Slash) + "/api/chat"@,
                reply,
            ),
    {
        match reply {
            ChatReply::TimedOut => Err(ModelError::Timeout(REQUEST_TIMEOUT_SECONDS)),
            ChatReply::NotSent { error } => {
                let mut text = self.chat_url();
                text.append(": ");
                text.append(&error);
                Err(ModelError::Unreachable(text))
            },
            ChatReply::Refused { status, body } => Err(ModelError::Status { status, body }),
            ChatReply::Undecoded { error } => Err(ModelError::Decode(error)),
            ChatReply::Answered { content } => Ok(content),
        }
    }
}

/// A model behind a command, which bills a subscription.
#[derive(Debug)]
pub struct ClaudeCodeModel {
    pub binary: String,
    /// Which model the command is to use; its own choice where there is none.
    pub model: Option<String>,
    pub label: String,
    pub timeout_seconds: u64,
}

/// The prompt of a request as one text: the command takes no separate system text.
pub open spec fn merged_prompt(c: CompletionView) -> Seq<char> {
    match c.system {
        Some(s) => s + "\n\n"@ + c.prompt,
        None => c.prompt,
    }
}

/// The arguments of the command.
pub open spec fn command_arguments(model: Option<Seq<char>>, c: CompletionView) -> Seq<Seq<char>> {
    let base = seq!["-p"@, merged_prompt(c), "--output-format"@, "json"@];
    match model {
        Some(m) => base.push("--model"@).push(m),
        None => base,
    }
}

/// How a run of the command ended.
#[derive(Debug)]
pub enum CommandReply {
    /// The time ran out.
    TimedOut,
    /// The command could not be started.
    NotStarted { error: String },
    /// The command ended with a failure.
    Failed { status: String, stderr: String },
    /// The output is no result.
    Undecoded { error: String },
    /// The result in the output.
    Answered { result: String },
}

/// What a run of the command comes to.
pub open spec fn command_outcome(
    binary: Seq<char>,
    timeout_seconds: u64,
    reply: CommandReply,
) -> Result<Seq<char>, ModelErrorView> {
    match reply {
        CommandReply::TimedOut => Err(ModelErrorView::Timeout(timeout_seconds)),
        CommandReply::NotStarted { error } => Err(
            ModelErrorView::Unreachable("`"@ + binary + "` nicht ausführbar: "@ + error@),
        ),
        CommandReply::Failed { status, stderr } => Err(
            ModelErrorView::Other(binary + " beendet mit "@ + status@ + ": "@ + stderr@),
        ),
        CommandReply::Undecoded { error } => Err(
            ModelErrorView::Decode("`"@ + binary + " --output-format json`: "@ + error@),
        ),
        CommandReply::Answered { result } => Ok(result@),
    }
}

impl ClaudeCodeModel {
    /// `binary` is the name of the command; `model` names a model, for instance "opus".
    pub fn new(binary: String, model: Option<String>) -> (r: ClaudeCodeModel)
        ensures
            r.binary@ == binary@,
            opt_text(r.model) == opt_text(model),
            r.label@ == binary@ + "-code(abo)"@,
            r.timeout_seconds == COMMAND_TIMEOUT_SECONDS,
    {
        let mut label = String::new();
        label.append(&binary);
        label.append("-code(abo)");
        assert(label@ =~= binary@ + "-code(abo)"@);
        ClaudeCodeModel { binary, model, label, timeout_seconds: COMMAND_TIMEOUT_SECONDS }
    }

    pub fn label(&self) -> (r: &str)
        ensures
            r@ == self.label@,
    {
        self.label.as_str()
    }

    /// The arguments of the command for a request.
    pub fn arguments(&self, req: &Completion) -> (r: Vec<String>)
        ensures
            views(r@) == command_arguments(opt_text(self.model), req@),
    {
        let prompt: String = match &req.system {
            Some(s) => {
                let mut text = String::new();
                text.append(s);
                text.append("\n\n");
                text.append(&req.prompt);
                assert(text@ =~= merged_prompt(req@));
                text
            },
            None => req.prompt.clone(),
        };
        let mut args: Vec<String> = Vec::new();
        args.push("-p".to_string());
        args.push(prompt);
        args.push("--output-format".to_string());
        args.push("json".to_string());
        match &self.model {
            Some(m) => {
                args.push("--model".to_string());
                args.push(m.clone());
            },
            None => {},
        }
        assert(views(args@) =~= command_arguments(opt_text(self.model), req@));
        args
    }

    /// What is made of the reply.
    pub fn command_result(&self, reply: CommandReply) -> (r: Result<String, ModelError>)
        ensures
            answer_view(r) == command_outcome(self.binary@, self.timeout_seconds, reply),
    {
        match reply {
            CommandReply::TimedOut => Err(ModelError::Timeout(self.timeout_seconds)),
            CommandReply::NotStarted { error } => {
                let mut text = String::new();
                text.append("`");
                text.append(&self.binary);
                text.append("` nicht ausführbar: ");
                text.append(&error);
                assert(text@ =~= "`"@ + self.binary@ + "` nicht ausführbar: "@ + error@);
                Err(ModelError::Unreachable(text))
            },
            CommandReply::Failed { status, stderr } => {
                let mut text = String::new();
                text.append(&self.binary);
                text.append(" beendet mit ");
                text.append(&status);
                text.append(": ");
                text.append(&stderr);
                assert(text@ =~= self.binary@ + " beendet mit "@ + status@ + ": "@ + stderr@);
                Err(ModelError::Other(text))
            },
            CommandReply::Undecoded { error } => {
                let mut text = String::new();
                text.append("`");
                text.append(&self.binary);
                text.append(" --output-format json`: ");
                text.append(&error);
                assert(text@ =~= "`"@ + self.binary@ + " --output-format json`: "@ + error@);
                Err(ModelError::Decode(text))
            },
            CommandReply::Answered { result } => Ok(result),
        }
    }
}

// ---------------------------------------------------------------------------
// What a model is told, and what comes of it
// ---------------------------------------------------------------------------

/// The prompt goes to the model as the last message, from the user; the system text
/// goes before it where there is one.
pub proof fn prompt_is_the_last_message(o: OllamaView, c: CompletionView)
    ensures
        chat_for(o, c).messages.len() == if c.system is Some {
            2int
        } else {
            1int
        },
        chat_for(o, c).messages.last() == (MessageView { role: "user"@, content: c.prompt }),
        c.system is Some ==> chat_for(o, c).messages[0] == (MessageView { role: "system"@, content: c.system->0 }),
        chat_for(o, c).model == o.model,
        chat_for(o, c).keep_alive == o.keep_alive,
        !chat_for(o, c).stream,
        chat_for(o, c).options.num_ctx == o.num_ctx,
        chat_for(o, c).options.temperature == c.temperature,
{
}

/// A limit on the tokens reaches the model as it is, as far as 31 bits hold it, and
/// beyond that by the same bits; without a limit the model gets -1.
pub proof fn limit_reaches_the_model(n: u32)
    ensures
        n <= i32::MAX ==> predicted_tokens(Some(n)) == n,
        i32::MIN <= predicted_tokens(Some(n)) <= i32::MAX,
        (n - predicted_tokens(Some(n))) % 0x1_0000_0000 == 0,
        predicted_tokens(None) == -1,
{
}

/// Only an answer is a success, and it is passed on as it is; each way to fail gives
/// its own error.
pub proof fn only_answers_succeed(url: Seq<char>, reply: ChatReply, binary: Seq<char>, seconds: u64, run: CommandReply)
    ensures
        chat_outcome(url, reply) is Ok <==> reply is Answered,
        reply is Answered ==> chat_outcome(url, reply) == Ok::<Seq<char>, ModelErrorView>(reply->content@),
        reply is TimedOut <==> chat_outcome(url, reply) is Err && chat_outcome(url, reply)->Err_0 is Timeout,
        reply is NotSent <==> chat_outcome(url, reply) is Err && chat_outcome(url, reply)->Err_0 is Unreachable,
        reply is Refused <==> chat_outcome(url, reply) is Err && chat_outcome(url, reply)->Err_0 is Status,
        reply is Undecoded <==> chat_outcome(url, reply) is Err && chat_outcome(url, reply)->Err_0 is Decode,
        command_outcome(binary, seconds, run) is Ok <==> run is Answered,
        run is Answered ==> command_outcome(binary, seconds, run) == Ok::<Seq<char>, ModelErrorView>(run->result@),
        run is TimedOut <==> command_outcome(binary, seconds, run) == Err::<Seq<char>, ModelErrorView>(
            ModelErrorView::Timeout(seconds),
        ),
        run is NotStarted <==> command_outcome(binary, seconds, run) is Err && command_outcome(
            binary,
            seconds,
            run,
        )->Err_0 is Unreachable,
        run is Undecoded <==> command_outcome(binary, seconds, run) is Err && command_outcome(
            binary,
            seconds,
            run,
        )->Err_0 is Decode,
        run is Failed <==> command_outcome(binary, seconds, run) is Err && command_outcome(binary, seconds, run)->Err_0
            is Other,
{
}

/// The command gets the prompt, behind the system text where there is one, and the
/// model where one is chosen.
pub proof fn command_gets_the_prompt(model: Option<Seq<char>>, c: CompletionView)
    ensures
        command_arguments(model, c).len() >= 4,
        command_arguments(model, c)[0] == "-p"@,
        c.system is None ==> command_arguments(model, c)[1] == c.prompt,
        c.system is Some ==> command_arguments(model, c)[1] == c.system->0 + "\n\n"@ + c.prompt,
        model is None ==> command_arguments(model, c).len() == 4,
        model is Some ==> command_arguments(model, c).len() == 6 && command_arguments(model, c)[4] == "--model"@
            && command_arguments(model, c)[5] == model->0,
{
}

/// An error says what went wrong.
pub proof fn error_says_what_went_wrong(s: Seq<char>, n: u64, status: u16)
    ensures
        has_part(error_text(ModelErrorView::Unreachable(s)), s),
        has_part(error_text(ModelErrorView::Timeout(n)), decimal(n as nat)),
        has_part(error_text(ModelErrorView::Status { status, body: s }), s),
        has_part(error_text(ModelErrorView::Status { status, body: s }), decimal(status as nat)),
        has_part(error_text(ModelErrorView::Decode(s)), s),
        error_text(ModelErrorView::Other(s)) == s,
{
    let none = Seq::<char>::empty();
    part_stands_between(s, s, "Modell-Backend nicht erreichbar: "@, none);
    assert("Modell-Backend nicht erreichbar: "@ + s + none =~= "Modell-Backend nicht erreichbar: "@ + s);
    part_stands_between(s, decimal(n as nat), "Zeitüberschreitung nach "@, "s"@);
    let head = "Backend-Fehlerstatus "@;
    let code = decimal(status as nat);
    part_stands_between(s, s, head + code + ": "@, none);
    assert(head + code + ": "@ + s + none =~= head + code + ": "@ + s);
    part_stands_between(s, code, head, ": "@ + s);
    assert(head + code + (": "@ + s) =~= head + code + ": "@ + s);
    part_stands_between(s, s, "Antwort dekodieren: "@, none);
    assert("Antwort dekodieren: "@ + s + none =~= "Antwort dekodieren: "@ + s);
}

/// An exchange that could not be sent or took too long is an outage, and so is one that
/// the server refused for a fault of its own; one that could not be read is none.
pub proof fn outages_are_told_apart(url: Seq<char>, reply: ChatReply)
    requires
        !(reply is Answered),
    ensures
        is_outage(chat_outcome(url, reply)->Err_0) <==> reply is TimedOut || reply is NotSent || (reply is Refused
            && reply->status >= 500),
{
}

} // verus!
