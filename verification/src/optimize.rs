//! Improving the prompt for the three things of the day. A candidate is tried in
//! the shadow of the active prompt, on the briefings of several days. A judge
//! compares the two outputs in both orders, so that a liking for one position
//! cancels out, and only a candidate that wins somewhere and loses nowhere is adopted.

use crate::briefing::{shown_items, Briefing};
use crate::llm::{plain_request, Completion, CompletionView, TEMPERATURE_1, TEMPERATURE_7};
use crate::number::{content_name, decimal, name_of, print_number};
use crate::scan::{blanks_are_trimmed, has_part, part_stands_between, trim, trimmed, CharClass};
use crate::store::ExperimentRow;
use crate::synthesis::{every_item_has_a_line, fill, filled, item_lines, section_items_text};
use crate::text::{join, joined, opt_text, same, uppercase, views, white_space};
use vstd::prelude::*;

verus! {

/// The slot of the prompt for the three things of the day.
pub const SLOT_TLDR: &'static str = "tldr";

/// On how many of the latest briefings a candidate is tried.
pub const SHADOW_DATES: usize = 3;

/// The prompt to begin with.
pub const TLDR_DEFAULT: &'static str = "Hier sind die heutigen Meldungen:\n{items}\n\nWähle die 3 wichtigsten aus. Antworte mit genau 3 kurzen deutschen Stichpunkten, je einer pro Zeile, ohne Nummerierung.";

pub const OPTIMIZER_SYSTEM: &'static str = "Du optimierst Prompts. Gib AUSSCHLIESSLICH den verbesserten Prompt-Text zurück, ohne Erklärung. Der Platzhalter {items} MUSS erhalten bleiben.";

pub const JUDGE_SYSTEM: &'static str = "Du bist ein strenger Gutachter. Antworte ausschließlich mit JSON.";

/// The active prompt of a slot.
#[derive(Debug)]
pub struct ActivePrompt {
    pub version: String,
    pub template: String,
}

impl Clone for ActivePrompt {
    fn clone(&self) -> (r: Self)
        ensures
            r == *self,
    {
        ActivePrompt { version: self.version.clone(), template: self.template.clone() }
    }
}

/// The judgement on a pair of outputs, after both orders.
#[derive(Clone, Copy, Debug, PartialEq, Eq, Structural)]
pub enum PairVerdict {
    /// The candidate wins in both orders.
    Candidate,
    /// The active prompt wins in both orders.
    Active,
    /// Undecided or contradictory.
    Tie,
}

/// What came out on all days.
#[derive(Clone, Copy, Debug, PartialEq, Eq, Structural)]
pub struct ShadowTally {
    pub wins: usize,
    pub losses: usize,
    pub ties: usize,
}

impl Default for ShadowTally {
    fn default() -> (r: Self)
        ensures
            r == (ShadowTally { wins: 0, losses: 0, ties: 0 }),
    {
        ShadowTally { wins: 0, losses: 0, ties: 0 }
    }
}

impl ShadowTally {
    /// On how many days the candidate was tried.
    pub fn dates(&self) -> (r: usize)
        requires
            self.wins + self.losses + self.ties <= usize::MAX,
        ensures
            r == self.wins + self.losses + self.ties,
    {
        self.wins + self.losses + self.ties
    }
}

/// Whether a candidate is adopted: it won a day and lost none.
pub fn should_adopt(tally: &ShadowTally) -> (r: bool)
    ensures
        r == (tally.wins > 0 && tally.losses == 0),
{
    tally.wins > 0 && tally.losses == 0
}

/// How an optimization ended.
#[derive(Debug)]
pub struct OptimizeOutcome {
    pub adopted: bool,
    pub active_version: String,
    pub candidate_version: String,
    pub tally: Option<ShadowTally>,
    pub reason: String,
}

/// Names a prompt by its content.
pub fn version_of(template: &str) -> (r: String)
    ensures
        r@ == content_name("tpl-"@, template@),
{
    name_of("tpl-", template)
}

/// The items of a briefing as the prompts see them, one line each.
pub fn items_to_text(b: &Briefing) -> (r: String)
    ensures
        r@ == item_lines(shown_items(b@.sections)),
{
    section_items_text(b)
}

// ---------------------------------------------------------------------------
// The active prompt
// ---------------------------------------------------------------------------

/// What is written to the store for a prompt.
#[derive(Debug)]
pub enum PromptWrite {
    Save { slot: String, version: String, parent: Option<String>, reason: String, template: String },
    Activate { slot: String, version: String },
}

/// What a write is.
pub enum PromptWriteView {
    Save { slot: Seq<char>, version: Seq<char>, parent: Option<Seq<char>>, reason: Seq<char>, template: Seq<char> },
    Activate { slot: Seq<char>, version: Seq<char> },
}

impl View for PromptWrite {
    type V = PromptWriteView;

    open spec fn view(&self) -> PromptWriteView {
        match self {
            PromptWrite::Save { slot, version, parent, reason, template } => PromptWriteView::Save {
                slot: slot@,
                version: version@,
                parent: opt_text(*parent),
                reason: reason@,
                template: template@,
            },
            PromptWrite::Activate { slot, version } => PromptWriteView::Activate { slot: slot@, version: version@ },
        }
    }
}

/// Saving a prompt and then making it the active one.
pub open spec fn adopt_prompt(
    version: Seq<char>,
    parent: Option<Seq<char>>,
    reason: Seq<char>,
    template: Seq<char>,
) -> Seq<PromptWriteView> {
    seq![
        PromptWriteView::Save { slot: SLOT_TLDR@, version, parent, reason, template },
        PromptWriteView::Activate { slot: SLOT_TLDR@, version },
    ]
}

/// Writes for a prompt that is saved and then made the active one.
fn adoption(version: &str, parent: Option<String>, reason: &str, template: &str) -> (r: Vec<PromptWrite>)
    ensures
        views(r@) == adopt_prompt(version@, opt_text(parent), reason@, template@),
{
    let mut out: Vec<PromptWrite> = Vec::new();
    let ghost of = opt_text(parent);
    out.push(
        PromptWrite::Save {
            slot: SLOT_TLDR.to_string(),
            version: version.to_string(),
            parent,
            reason: reason.to_string(),
            template: template.to_string(),
        },
    );
    out.push(PromptWrite::Activate { slot: SLOT_TLDR.to_string(), version: version.to_string() });
    assert(views(out@) =~= adopt_prompt(version@, of, reason@, template@));
    out
}

/// The active prompt, given what the store holds as version and template; where
/// it holds none, the prompt to begin with, which is to be written.
pub fn active_tldr(held: Option<ActivePrompt>) -> (r: (ActivePrompt, Vec<PromptWrite>))
    ensures
        match held {
            Some(p) => r.0.version@ == p.version@ && r.0.template@ == p.template@ && r.1@.len() == 0,
            None => r.0.template@ == TLDR_DEFAULT@ && r.0.version@ == content_name("tpl-"@, TLDR_DEFAULT@) && views(r.1@)
                == adopt_prompt(content_name("tpl-"@, TLDR_DEFAULT@), None, "Seed-Default"@, TLDR_DEFAULT@),
        },
{
    match held {
        Some(p) => (p, Vec::new()),
        None => {
            let version = version_of(TLDR_DEFAULT);
            let writes = adoption(&version, None, "Seed-Default", TLDR_DEFAULT);
            (ActivePrompt { version, template: TLDR_DEFAULT.to_string() }, writes)
        },
    }
}

// ---------------------------------------------------------------------------
// Judging a pair
// ---------------------------------------------------------------------------

/// Which of two variants a judge prefers.
#[derive(Clone, Copy, Debug, PartialEq, Eq, Structural)]
pub enum RawWinner {
    A,
    B,
    Tie,
}

/// What a judge's word stands for.
pub open spec fn raw_winner(word: Seq<char>) -> RawWinner {
    let w = uppercase(trimmed(word, CharClass::WhiteSpace));
    if w == "A"@ {
        RawWinner::A
    } else if w == "B"@ {
        RawWinner::B
    } else {
        RawWinner::Tie
    }
}

/// Reads a judge's word.
pub fn read_winner(word: &str) -> (r: RawWinner)
    ensures
        r == raw_winner(word@),
{
    let inner = trim(word, CharClass::WhiteSpace);
    let w = inner.as_str().to_uppercase();
    if same(&w, "A") {
        RawWinner::A
    } else if same(&w, "B") {
        RawWinner::B
    } else {
        RawWinner::Tie
    }
}

/// The verdict on a pair. In the first round the active prompt is A and the
/// candidate B, in the second they have changed places. Only who wins both wins.
pub open spec fn verdict(round1: RawWinner, round2: RawWinner) -> PairVerdict {
    if round1 == RawWinner::B && round2 == RawWinner::A {
        PairVerdict::Candidate
    } else if round1 == RawWinner::A && round2 == RawWinner::B {
        PairVerdict::Active
    } else {
        PairVerdict::Tie
    }
}

/// Gives the verdict on a pair.
pub fn judge_pair(round1: RawWinner, round2: RawWinner) -> (r: PairVerdict)
    ensures
        r == verdict(round1, round2),
{
    match (round1, round2) {
        (RawWinner::B, RawWinner::A) => PairVerdict::Candidate,
        (RawWinner::A, RawWinner::B) => PairVerdict::Active,
        _ => PairVerdict::Tie,
    }
}

/// A judge who prefers one position whatever stands there gives no signal.
pub proof fn position_bias_cancels(always: RawWinner)
    ensures
        verdict(always, always) == PairVerdict::Tie,
{
}

/// The two prompts are judged alike: with their roles exchanged, which exchanges
/// the rounds, the verdict is exchanged too.
pub proof fn verdict_is_fair(round1: RawWinner, round2: RawWinner)
    ensures
        verdict(round2, round1) == match verdict(round1, round2) {
            PairVerdict::Candidate => PairVerdict::Active,
            PairVerdict::Active => PairVerdict::Candidate,
            PairVerdict::Tie => PairVerdict::Tie,
        },
{
}

/// What a judge is asked about two variants of the same items.
pub open spec fn judge_request_for(items: Seq<char>, a: Seq<char>, b: Seq<char>) -> CompletionView {
    CompletionView {
        system: Some(JUDGE_SYSTEM@),
        temperature: TEMPERATURE_1,
        ..plain_request(
            "Zwei TL;DR-Varianten derselben Meldungen. Welche ist besser nach Prägnanz, Relevanz und Anschlussfähigkeit für Entscheidungen?\n\nMELDUNGEN:\n"@
                + items + "\n\nVARIANTE A:\n"@ + a + "\n\nVARIANTE B:\n"@ + b
                + "\n\nAntworte NUR mit JSON {\"winner\":\"A\"} oder {\"winner\":\"B\"} oder {\"winner\":\"tie\"}."@,
        )
    }
}

/// The request to a judge about two variants.
pub fn judge_request(items_text: &str, a: &str, b: &str) -> (r: Completion)
    ensures
        r@ == judge_request_for(items_text@, a@, b@),
{
    let mut prompt = String::new();
    prompt.append(
        "Zwei TL;DR-Varianten derselben Meldungen. Welche ist besser nach Prägnanz, Relevanz und Anschlussfähigkeit für Entscheidungen?\n\nMELDUNGEN:\n",
    );
    prompt.append(items_text);
    prompt.append("\n\nVARIANTE A:\n");
    prompt.append(a);
    prompt.append("\n\nVARIANTE B:\n");
    prompt.append(b);
    prompt.append("\n\nAntworte NUR mit JSON {\"winner\":\"A\"} oder {\"winner\":\"B\"} oder {\"winner\":\"tie\"}.");
    assert(prompt@ =~= judge_request_for(items_text@, a@, b@).prompt);
    Completion::new(prompt).with_system(JUDGE_SYSTEM).temperature(TEMPERATURE_1)
}

/// The requests for both rounds: the active output first, then the candidate's first.
pub fn judge_rounds(items_text: &str, active_out: &str, candidate_out: &str) -> (r: (Completion, Completion))
    ensures
        r.0@ == judge_request_for(items_text@, active_out@, candidate_out@),
        r.1@ == judge_request_for(items_text@, candidate_out@, active_out@),
{
    (judge_request(items_text, active_out, candidate_out), judge_request(items_text, candidate_out, active_out))
}

// ---------------------------------------------------------------------------
// The candidate
// ---------------------------------------------------------------------------

/// What an optimizer is asked.
pub open spec fn propose_request_for(active: Seq<char>) -> CompletionView {
    CompletionView {
        system: Some(OPTIMIZER_SYSTEM@),
        temperature: TEMPERATURE_7,
        ..plain_request(
            "Aktueller Prompt:\n---\n"@ + active
                + "\n---\n\nVerbessere ihn, damit das TL;DR prägnanter und anschlussfähiger für Entscheidungen/Gespräche wird. Behalte den Platzhalter {items}. Gib nur den neuen Prompt zurück."@,
        )
    }
}

/// The request for a candidate.
pub fn propose_request(active: &str) -> (r: Completion)
    ensures
        r@ == propose_request_for(active@),
{
    let mut prompt = String::new();
    prompt.append("Aktueller Prompt:\n---\n");
    prompt.append(active);
    prompt.append(
        "\n---\n\nVerbessere ihn, damit das TL;DR prägnanter und anschlussfähiger für Entscheidungen/Gespräche wird. Behalte den Platzhalter {items}. Gib nur den neuen Prompt zurück.",
    );
    assert(prompt@ =~= propose_request_for(active@).prompt);
    Completion::new(prompt).with_system(OPTIMIZER_SYSTEM).temperature(TEMPERATURE_7)
}

/// The candidate in an optimizer's reply.
pub fn propose_prompt(reply: &str) -> (r: String)
    ensures
        r@ == trimmed(reply@, CharClass::WhiteSpace),
{
    trim(reply, CharClass::WhiteSpace)
}

// ---------------------------------------------------------------------------
// The trial
// ---------------------------------------------------------------------------

/// The items of one day on which the prompts are compared.
#[derive(Debug)]
pub struct ShadowInput {
    pub date: String,
    pub text: String,
}

/// What an input is.
#[verifier::ext_equal]
pub struct InputView {
    pub date: Seq<char>,
    pub text: Seq<char>,
}

impl View for ShadowInput {
    type V = InputView;

    open spec fn view(&self) -> InputView {
        InputView { date: self.date@, text: self.text@ }
    }
}

/// A day and its briefing, if there is one.
#[derive(Debug)]
pub struct DayBriefing {
    pub date: String,
    pub briefing: Option<Briefing>,
}

/// The days that are tried: the given one, or else the latest ones.
pub fn shadow_dates(date: Option<String>, recent: Vec<String>) -> (r: Vec<String>)
    ensures
        views(r@) == match date {
            Some(d) => seq![d@],
            None => views(recent@),
        },
{
    match date {
        Some(d) => {
            let mut out: Vec<String> = Vec::new();
            out.push(d);
            assert(views(out@) =~= seq![d@]);
            out
        },
        None => recent,
    }
}

/// The inputs of some days: those with a briefing that shows something.
pub open spec fn inputs_of(days: Seq<DayBriefing>) -> Seq<InputView>
    decreases days.len(),
{
    if days.len() == 0 {
        seq![]
    } else {
        let before = inputs_of(days.drop_last());
        match days.last().briefing {
            Some(b) => {
                let text = item_lines(shown_items(b@.sections));
                if text.len() == 0 {
                    before
                } else {
                    before.push(InputView { date: days.last().date@, text })
                }
            },
            None => before,
        }
    }
}

/// Gathers the inputs of some days.
pub fn shadow_inputs(days: &Vec<DayBriefing>) -> (r: Vec<ShadowInput>)
    ensures
        views(r@) == inputs_of(days@),
{
    let mut out: Vec<ShadowInput> = Vec::new();
    let mut i: usize = 0;
    assert(views(out@) =~= seq![]);
    while i < days.len()
        invariant
            i <= days@.len(),
            views(out@) == inputs_of(days@.take(i as int)),
        decreases days.len() - i,
    {
        proof {
            assert(days@.take(i + 1).drop_last() =~= days@.take(i as int));
            assert(days@.take(i + 1).last() == days@[i as int]);
        }
        match &days[i].briefing {
            Some(b) => {
                let text = items_to_text(b);
                if !text.as_str().is_empty() {
                    let ghost prev = out@;
                    let input = ShadowInput { date: days[i].date.clone(), text };
                    let ghost seen = input@;
                    out.push(input);
                    assert(views(out@) =~= views(prev).push(seen));
                }
            },
            None => {},
        }
        i = i + 1;
    }
    assert(days@.take(i as int) =~= days@);
    out
}

/// A candidate on trial.
#[derive(Debug)]
pub struct Trial {
    pub active: ActivePrompt,
    pub candidate: ActivePrompt,
    pub inputs: Vec<ShadowInput>,
    /// The verdicts on the first inputs.
    pub verdicts: Vec<PairVerdict>,
}

/// How the optimization goes on once there is a candidate.
#[derive(Debug)]
pub enum Proposal {
    /// The candidate is the active prompt: there is nothing to try.
    Identical(OptimizeOutcome),
    /// The candidate is to be tried.
    Trial(Trial),
}

/// Whether there is something to try a candidate on; otherwise why not.
pub fn check_inputs(inputs: &Vec<ShadowInput>) -> (r: Result<(), String>)
    ensures
        match r {
            Ok(_) => inputs@.len() > 0,
            Err(e) => inputs@.len() == 0 && e@ == "kein Briefing als Schatten-Input (erst `ibrief brief`)"@,
        },
{
    if inputs.len() == 0 {
        Err("kein Briefing als Schatten-Input (erst `ibrief brief`)".to_string())
    } else {
        Ok(())
    }
}

/// How often a verdict was given.
pub open spec fn count_verdicts(verdicts: Seq<PairVerdict>, v: PairVerdict) -> nat
    decreases verdicts.len(),
{
    if verdicts.len() == 0 {
        0
    } else {
        count_verdicts(verdicts.drop_last(), v) + if verdicts.last() == v {
            1nat
        } else {
            0nat
        }
    }
}

/// Whether `t` counts the verdicts.
pub open spec fn is_tally(t: ShadowTally, verdicts: Seq<PairVerdict>) -> bool {
    &&& t.wins == count_verdicts(verdicts, PairVerdict::Candidate)
    &&& t.losses == count_verdicts(verdicts, PairVerdict::Active)
    &&& t.ties == count_verdicts(verdicts, PairVerdict::Tie)
}

/// Counts the verdicts.
pub fn tally_of(verdicts: &Vec<PairVerdict>) -> (r: ShadowTally)
    ensures
        is_tally(r, verdicts@),
        r.wins + r.losses + r.ties == verdicts@.len(),
        r.wins + r.losses + r.ties <= usize::MAX,
{
    let mut t = ShadowTally { wins: 0, losses: 0, ties: 0 };
    let mut i: usize = 0;
    while i < verdicts.len()
        invariant
            i <= verdicts@.len(),
            is_tally(t, verdicts@.take(i as int)),
            t.wins + t.losses + t.ties == i,
        decreases verdicts.len() - i,
    {
        proof {
            assert(verdicts@.take(i + 1).drop_last() =~= verdicts@.take(i as int));
            assert(verdicts@.take(i + 1).last() == verdicts@[i as int]);
        }
        match verdicts[i] {
            PairVerdict::Candidate => {
                t.wins = t.wins + 1;
            },
            PairVerdict::Active => {
                t.losses = t.losses + 1;
            },
            PairVerdict::Tie => {
                t.ties = t.ties + 1;
            },
        }
        i = i + 1;
    }
    assert(verdicts@.take(i as int) =~= verdicts@);
    t
}

/// Whether a candidate with these verdicts is adopted: it wins somewhere and loses nowhere.
pub open spec fn is_adopted(verdicts: Seq<PairVerdict>) -> bool {
    count_verdicts(verdicts, PairVerdict::Candidate) > 0 && count_verdicts(verdicts, PairVerdict::Active) == 0
}

/// What is said of a trial.
pub open spec fn trial_reason(t: ShadowTally) -> Seq<char> {
    "Pairwise-Judge über "@ + decimal((t.wins + t.losses + t.ties) as nat) + " Tag(e): Kandidat "@ + decimal(
        t.wins as nat,
    ) + " Sieg(e), "@ + decimal(t.losses as nat) + " Niederlage(n), "@ + decimal(t.ties as nat) + " unentschieden"@
}

/// The days of some inputs.
pub open spec fn input_dates(inputs: Seq<InputView>) -> Seq<Seq<char>> {
    Seq::new(inputs.len(), |i: int| inputs[i].date)
}

/// Lists the days of some inputs.
fn list_dates(inputs: &Vec<ShadowInput>) -> (r: Vec<String>)
    ensures
        views(r@) == input_dates(views(inputs@)),
{
    let ghost all = input_dates(views(inputs@));
    let mut out: Vec<String> = Vec::new();
    let mut i: usize = 0;
    while i < inputs.len()
        invariant
            i <= inputs@.len(),
            all == input_dates(views(inputs@)),
            views(out@) == all.take(i as int),
        decreases inputs.len() - i,
    {
        let ghost prev = out@;
        out.push(inputs[i].date.clone());
        assert(views(out@) =~= views(prev).push(all[i as int]));
        assert(all.take(i + 1) =~= all.take(i as int).push(all[i as int]));
        i = i + 1;
    }
    assert(all.take(i as int) =~= all);
    out
}

/// What a trial ends with: the outcome, the record of the experiment, and what
/// is written for the prompt.
#[derive(Debug)]
pub struct TrialEnd {
    pub outcome: OptimizeOutcome,
    pub experiment: ExperimentRow,
    pub writes: Vec<PromptWrite>,
}

/// Begins with a candidate: one that is the active prompt is not tried.
pub fn begin_trial(active: ActivePrompt, inputs: Vec<ShadowInput>, candidate: String) -> (r: Proposal)
    ensures
        match r {
            Proposal::Identical(o) => active.version@ == content_name("tpl-"@, candidate@) && !o.adopted
                && o.active_version@ == active.version@ && o.candidate_version@ == active.version@ && o.tally is None
                && o.reason@ == "Kandidat identisch zum aktiven Prompt"@,
            Proposal::Trial(t) => active.version@ != content_name("tpl-"@, candidate@) && t.active == active
                && t.candidate.template@ == candidate@ && t.candidate.version@ == content_name("tpl-"@, candidate@)
                && t.inputs@ == inputs@ && t.verdicts@.len() == 0,
        },
{
    let version = version_of(&candidate);
    if same(&version, &active.version) {
        Proposal::Identical(
            OptimizeOutcome {
                adopted: false,
                active_version: active.version,
                candidate_version: version,
                tally: None,
                reason: "Kandidat identisch zum aktiven Prompt".to_string(),
            },
        )
    } else {
        Proposal::Trial(
            Trial {
                active,
                candidate: ActivePrompt { version, template: candidate },
                inputs,
                verdicts: Vec::new(),
            },
        )
    }
}

impl Trial {
    /// Whether there are no more verdicts than inputs.
    pub open spec fn well_formed(&self) -> bool {
        self.verdicts@.len() <= self.inputs@.len()
    }

    /// What is asked of the synthesis for the next input, once with the active
    /// prompt and once with the candidate; nothing where all inputs were tried.
    pub fn next(&self) -> (r: Option<(Completion, Completion)>)
        requires
            self.well_formed(),
        ensures
            match r {
                Some((a, c)) => self.verdicts@.len() < self.inputs@.len() && a@ == plain_request(
                    filled(self.active.template@, self.inputs@[self.verdicts@.len() as int].text@),
                ) && c@ == plain_request(
                    filled(self.candidate.template@, self.inputs@[self.verdicts@.len() as int].text@),
                ),
                None => self.verdicts@.len() == self.inputs@.len(),
            },
    {
        let i: usize = self.verdicts.len();
        if i < self.inputs.len() {
            let text = &self.inputs[i].text;
            Some(
                (
                    Completion::new(fill(&self.active.template, text)),
                    Completion::new(fill(&self.candidate.template, text)),
                ),
            )
        } else {
            None
        }
    }

    /// What a judge is asked about the outputs for the next input, in both orders.
    pub fn judge(&self, active_out: &str, candidate_out: &str) -> (r: (Completion, Completion))
        requires
            self.verdicts@.len() < self.inputs@.len(),
        ensures
            r.0@ == judge_request_for(
                self.inputs@[self.verdicts@.len() as int].text@,
                active_out@,
                candidate_out@,
            ),
            r.1@ == judge_request_for(
                self.inputs@[self.verdicts@.len() as int].text@,
                candidate_out@,
                active_out@,
            ),
    {
        judge_rounds(&self.inputs[self.verdicts.len()].text, active_out, candidate_out)
    }

    /// Takes in the judge's words on the next input.
    pub fn judged(&mut self, word1: &str, word2: &str)
        requires
            old(self).verdicts@.len() < old(self).inputs@.len(),
        ensures
            final(self).well_formed(),
            final(self).verdicts@ == old(self).verdicts@.push(verdict(raw_winner(word1@), raw_winner(word2@))),
            final(self).inputs@ == old(self).inputs@,
            final(self).active == old(self).active,
            final(self).candidate == old(self).candidate,
    {
        let v = judge_pair(read_winner(word1), read_winner(word2));
        self.verdicts.push(v);
    }

    /// Ends the trial. A candidate that won a day and lost none is adopted: it is
    /// saved, with the prompt that it replaces as its parent, and made the active one.
    pub fn finish(self) -> (r: TrialEnd)
        requires
            self.verdicts@.len() == self.inputs@.len(),
        ensures
            r.outcome.tally is Some,
            is_tally(r.outcome.tally->0, self.verdicts@),
            r.outcome.adopted == is_adopted(self.verdicts@),
            r.outcome.adopted == (count_verdicts(self.verdicts@, PairVerdict::Candidate) > 0 && count_verdicts(
                self.verdicts@,
                PairVerdict::Active,
            ) == 0),
            r.outcome.active_version@ == self.active.version@,
            r.outcome.candidate_version@ == self.candidate.version@,
            r.outcome.reason@ == trial_reason(r.outcome.tally->0),
            r.experiment.id@ == content_name(
                "tpl-"@,
                self.active.version@ + "|"@ + self.candidate.version@ + "|"@ + joined(
                    input_dates(views(self.inputs@)),
                    ","@,
                ),
            ),
            r.experiment.kind@ == "prompt"@,
            r.experiment.slot@ == SLOT_TLDR@,
            r.experiment.control@ == self.active.version@,
            r.experiment.candidate@ == self.candidate.version@,
            r.experiment.status@ == if r.outcome.adopted {
                "promoted"@
            } else {
                "rejected"@
            },
            r.experiment.created_at@ == Seq::<char>::empty(),
            views(r.writes@) == if r.outcome.adopted {
                adopt_prompt(
                    self.candidate.version@,
                    Some(self.active.version@),
                    r.outcome.reason@,
                    self.candidate.template@,
                )
            } else {
                seq![]
            },
    {
        let tally = tally_of(&self.verdicts);
        let adopted = should_adopt(&tally);
        let mut key = String::new();
        key.append(&self.active.version);
        key.append("|");
        key.append(&self.candidate.version);
        key.append("|");
        let dates = list_dates(&self.inputs);
        key.append(&join(&dates, ","));
        assert(key@ =~= self.active.version@ + "|"@ + self.candidate.version@ + "|"@ + joined(
            input_dates(views(self.inputs@)),
            ","@,
        ));
        let experiment = ExperimentRow {
            id: version_of(&key),
            kind: "prompt".to_string(),
            slot: SLOT_TLDR.to_string(),
            control: self.active.version.clone(),
            candidate: self.candidate.version.clone(),
            status: if adopted {
                "promoted".to_string()
            } else {
                "rejected".to_string()
            },
            created_at: String::new(),
        };
        let mut reason = String::new();
        reason.append("Pairwise-Judge über ");
        reason.append(&print_number(tally.dates() as u64));
        reason.append(" Tag(e): Kandidat ");
        reason.append(&print_number(tally.wins as u64));
        reason.append(" Sieg(e), ");
        reason.append(&print_number(tally.losses as u64));
        reason.append(" Niederlage(n), ");
        reason.append(&print_number(tally.ties as u64));
        reason.append(" unentschieden");
        assert(reason@ =~= trial_reason(tally));
        let writes: Vec<PromptWrite> = if adopted {
            adoption(&self.candidate.version, Some(self.active.version.clone()), &reason, &self.candidate.template)
        } else {
            let none: Vec<PromptWrite> = Vec::new();
            assert(views(none@) =~= seq![]);
            none
        };
        TrialEnd {
            outcome: OptimizeOutcome {
                adopted,
                active_version: self.active.version,
                candidate_version: self.candidate.version,
                tally: Some(tally),
                reason,
            },
            experiment,
            writes,
        }
    }
}

/// A candidate that ties on every day is not adopted, nor is one that loses a day.
pub proof fn adoption_needs_a_win_and_no_loss(verdicts: Seq<PairVerdict>)
    ensures
        count_verdicts(verdicts, PairVerdict::Candidate) > 0 <==> verdicts.contains(PairVerdict::Candidate),
        count_verdicts(verdicts, PairVerdict::Active) == 0 <==> !verdicts.contains(PairVerdict::Active),
        is_adopted(verdicts) <==> verdicts.contains(PairVerdict::Candidate) && !verdicts.contains(PairVerdict::Active),
{
    lemma_count_contains(verdicts, PairVerdict::Candidate);
    lemma_count_contains(verdicts, PairVerdict::Active);
}

proof fn lemma_count_contains(verdicts: Seq<PairVerdict>, v: PairVerdict)
    ensures
        count_verdicts(verdicts, v) > 0 <==> verdicts.contains(v),
    decreases verdicts.len(),
{
    if verdicts.len() > 0 {
        let before = verdicts.drop_last();
        lemma_count_contains(before, v);
        if before.contains(v) {
            let k = choose|k: int| 0 <= k < before.len() && before[k] == v;
            assert(verdicts[k] == v);
        }
        if verdicts.last() == v {
            assert(verdicts[verdicts.len() - 1] == v);
        }
        if verdicts.contains(v) && verdicts.last() != v {
            let k = choose|k: int| 0 <= k < verdicts.len() && verdicts[k] == v;
            assert(before[k] == v);
        }
    }
}

/// A prompt wins a day exactly where the judge prefers its output in both orders.
pub proof fn winner_wins_both_rounds(round1: RawWinner, round2: RawWinner)
    ensures
        verdict(round1, round2) == PairVerdict::Candidate <==> round1 == RawWinner::B && round2 == RawWinner::A,
        verdict(round1, round2) == PairVerdict::Active <==> round1 == RawWinner::A && round2 == RawWinner::B,
{
}

/// The tally has every day once, under its verdict.
pub proof fn tally_counts_the_days(t: ShadowTally, verdicts: Seq<PairVerdict>)
    requires
        is_tally(t, verdicts),
    ensures
        t.wins == verdicts.filter(|v: PairVerdict| v == PairVerdict::Candidate).len(),
        t.losses == verdicts.filter(|v: PairVerdict| v == PairVerdict::Active).len(),
        t.ties == verdicts.filter(|v: PairVerdict| v == PairVerdict::Tie).len(),
{
    lemma_counted(verdicts);
}

proof fn lemma_counted(verdicts: Seq<PairVerdict>)
    ensures
        count_verdicts(verdicts, PairVerdict::Candidate) == verdicts.filter(
            |v: PairVerdict| v == PairVerdict::Candidate,
        ).len(),
        count_verdicts(verdicts, PairVerdict::Active) == verdicts.filter(|v: PairVerdict| v == PairVerdict::Active).len(),
        count_verdicts(verdicts, PairVerdict::Tie) == verdicts.filter(|v: PairVerdict| v == PairVerdict::Tie).len(),
    decreases verdicts.len(),
{
    reveal(Seq::filter);
    if verdicts.len() > 0 {
        lemma_counted(verdicts.drop_last());
    }
}

/// The judge's word counts without the blanks around it and in any case; what is
/// neither `A` nor `B` is a tie.
pub proof fn word_names_the_winner(p: Seq<char>, w: Seq<char>, q: Seq<char>)
    requires
        forall|i: int| 0 <= i < p.len() ==> white_space(#[trigger] p[i]),
        forall|i: int| 0 <= i < q.len() ==> white_space(#[trigger] q[i]),
        w.len() > 0 ==> !white_space(w[0]) && !white_space(w.last()),
    ensures
        raw_winner(p + w + q) == RawWinner::A <==> uppercase(w) == "A"@,
        raw_winner(p + w + q) == RawWinner::B <==> uppercase(w) == "B"@,
        w == "a"@ || w == "A"@ ==> raw_winner(p + w + q) == RawWinner::A,
        w == "b"@ || w == "B"@ ==> raw_winner(p + w + q) == RawWinner::B,
{
    reveal_strlit("A");
    reveal_strlit("B");
    reveal_strlit("a");
    reveal_strlit("b");
    blanks_are_trimmed(p, w, q);
    assert("A"@[0] != "B"@[0]);
    assert(w == "a"@ || w == "A"@ ==> uppercase(w) =~= "A"@);
    assert(w == "b"@ || w == "B"@ ==> uppercase(w) =~= "B"@);
}

/// Every day whose briefing shows an item is tried, with what it shows, in order.
pub proof fn days_with_items_are_tried(a: Seq<DayBriefing>, b: Seq<DayBriefing>, one: DayBriefing)
    ensures
        inputs_of(a + b) == inputs_of(a) + inputs_of(b),
        one.briefing is None ==> inputs_of(seq![one]).len() == 0,
        one.briefing is Some && shown_items((one.briefing->0)@.sections).len() == 0 ==> inputs_of(seq![one]).len() == 0,
        one.briefing is Some && shown_items((one.briefing->0)@.sections).len() > 0 ==> inputs_of(seq![one]) == seq![
            InputView { date: one.date@, text: item_lines(shown_items((one.briefing->0)@.sections)) },
        ],
    decreases b.len(),
{
    assert(seq![one].drop_last() =~= Seq::<DayBriefing>::empty());
    assert(inputs_of(seq![one].drop_last()) =~= Seq::<InputView>::empty());
    if one.briefing is Some {
        let items = shown_items((one.briefing->0)@.sections);
        if items.len() > 0 {
            every_item_has_a_line(items, seq![], items[0]);
            assert(inputs_of(seq![one]) =~= seq![InputView { date: one.date@, text: item_lines(items) }]);
        }
    }
    if b.len() == 0 {
        assert(a + b =~= a);
        assert(inputs_of(a) + inputs_of(b) =~= inputs_of(a));
    } else {
        days_with_items_are_tried(a, b.drop_last(), one);
        assert((a + b).drop_last() =~= a + b.drop_last());
        assert(inputs_of(a + b) =~= inputs_of(a) + inputs_of(b));
    }
}

/// The judge sees the items and both outputs, each under its letter; exchanging the
/// outputs exchanges the letters.
pub proof fn judge_sees_both_outputs(items: Seq<char>, a: Seq<char>, b: Seq<char>)
    ensures
        has_part(judge_request_for(items, a, b).prompt, "MELDUNGEN:\n"@ + items + "\n\nVARIANTE A:\n"@ + a
            + "\n\nVARIANTE B:\n"@ + b + "\n"@),
        judge_request_for(items, a, b).system == judge_request_for(items, b, a).system,
        judge_request_for(items, a, b).temperature == TEMPERATURE_1,
{
    let head = "Zwei TL;DR-Varianten derselben Meldungen. Welche ist besser nach Prägnanz, Relevanz und Anschlussfähigkeit für Entscheidungen?\n\n"@;
    let tail = "\nAntworte NUR mit JSON {\"winner\":\"A\"} oder {\"winner\":\"B\"} oder {\"winner\":\"tie\"}."@;
    let mid = "MELDUNGEN:\n"@ + items + "\n\nVARIANTE A:\n"@ + a + "\n\nVARIANTE B:\n"@ + b + "\n"@;
    reveal_strlit("MELDUNGEN:\n");
    reveal_strlit("\n");
    reveal_strlit("Zwei TL;DR-Varianten derselben Meldungen. Welche ist besser nach Prägnanz, Relevanz und Anschlussfähigkeit für Entscheidungen?\n\n");
    reveal_strlit("Zwei TL;DR-Varianten derselben Meldungen. Welche ist besser nach Prägnanz, Relevanz und Anschlussfähigkeit für Entscheidungen?\n\nMELDUNGEN:\n");
    reveal_strlit("\nAntworte NUR mit JSON {\"winner\":\"A\"} oder {\"winner\":\"B\"} oder {\"winner\":\"tie\"}.");
    reveal_strlit("\n\nAntworte NUR mit JSON {\"winner\":\"A\"} oder {\"winner\":\"B\"} oder {\"winner\":\"tie\"}.");
    let p = judge_request_for(items, a, b).prompt;
    part_stands_between(p, mid, head, tail);
    assert(p =~= head + mid + tail);
}

/// A prompt that is adopted is saved first, with what led to it, and then activated,
/// in the slot of the three things.
pub proof fn adopted_prompt_is_saved_and_activated(
    version: Seq<char>,
    parent: Option<Seq<char>>,
    reason: Seq<char>,
    template: Seq<char>,
)
    ensures
        adopt_prompt(version, parent, reason, template).len() == 2,
        adopt_prompt(version, parent, reason, template)[0] == (PromptWriteView::Save {
            slot: "tldr"@,
            version,
            parent,
            reason,
            template,
        }),
        adopt_prompt(version, parent, reason, template)[1] == (PromptWriteView::Activate { slot: "tldr"@, version }),
{
}

/// The reason of a trial tells the wins, the losses and the ties, each by its name.
pub proof fn reason_tells_the_tally(t: ShadowTally)
    ensures
        has_part(trial_reason(t), "Kandidat "@ + decimal(t.wins as nat) + " Sieg(e), "@),
        has_part(trial_reason(t), decimal(t.losses as nat) + " Niederlage(n), "@),
        has_part(trial_reason(t), decimal(t.ties as nat) + " unentschieden"@),
{
    let r = trial_reason(t);
    let a = "Pairwise-Judge über "@ + decimal((t.wins + t.losses + t.ties) as nat);
    let w = decimal(t.wins as nat);
    let l = decimal(t.losses as nat);
    let d = decimal(t.ties as nat);
    reveal_strlit(" Tag(e): Kandidat ");
    reveal_strlit(" Tag(e): ");
    reveal_strlit("Kandidat ");
    assert(" Tag(e): Kandidat "@ =~= " Tag(e): "@ + "Kandidat "@);
    let x = "Kandidat "@ + w + " Sieg(e), "@;
    let y = l + " Niederlage(n), "@;
    let z = d + " unentschieden"@;
    part_stands_between(r, x, a + " Tag(e): "@, y + z);
    assert(r =~= a + " Tag(e): "@ + x + (y + z));
    part_stands_between(r, y, a + " Tag(e): "@ + x, z);
    assert(r =~= a + " Tag(e): "@ + x + y + z);
    part_stands_between(r, z, a + " Tag(e): "@ + x + y, seq![]);
    assert(r =~= a + " Tag(e): "@ + x + y + z + seq![]);
}

/// The days of a trial are those of its inputs, in order.
pub proof fn trial_names_its_days(inputs: Seq<InputView>, i: int)
    requires
        0 <= i < inputs.len(),
    ensures
        input_dates(inputs).len() == inputs.len(),
        input_dates(inputs)[i] == inputs[i].date,
{
}

} // verus!
