//! Research on a question: search, read, reflect, synthesize, verify. The loop
//! is bounded by a budget, and a claim counts only if it names one of the sources.

use crate::llm::{plain_request, Completion, CompletionView, TEMPERATURE_2, TEMPERATURE_3};
use crate::number::{decimal, print_number};
use crate::scan::{
    blanks_are_trimmed, contains_part, cut, has_part, lines, lines_end_at_line_feeds, part_stands_between,
    separator_ends_a_piece, split_lines, trim, trimmed, truncate, CharClass,
};
use crate::text::{holds, same, uppercase, views, white_space};
use vstd::prelude::*;

verus! {

/// How much of a document the synthesis sees, in characters.
pub const EXCERPT: usize = 500;

pub const RESEARCH_SYSTEM: &'static str = "Du bist ein präziser Rechercheur. Nur belegte Aussagen. Nur JSON.";

/// A document that was found.
#[derive(Debug)]
pub struct Doc {
    pub url: String,
    pub text: String,
}

/// What a document is.
#[verifier::ext_equal]
pub struct DocView {
    pub url: Seq<char>,
    pub text: Seq<char>,
}

impl View for Doc {
    type V = DocView;

    open spec fn view(&self) -> DocView {
        DocView { url: self.url@, text: self.text@ }
    }
}

impl Clone for Doc {
    fn clone(&self) -> (r: Self)
        ensures
            r@ == self@,
    {
        Doc { url: self.url.clone(), text: self.text.clone() }
    }
}

/// When the loop stops at the latest.
#[derive(Clone, Copy, Debug, PartialEq, Eq, Structural)]
pub struct Budget {
    pub max_iterations: usize,
    pub max_sources: usize,
}

impl Default for Budget {
    fn default() -> (r: Self)
        ensures
            r == (Budget { max_iterations: 3, max_sources: 12 }),
    {
        Budget { max_iterations: 3, max_sources: 12 }
    }
}

/// A claim with the source that it names.
#[derive(Debug)]
pub struct Claim {
    pub text: String,
    pub source: String,
}

/// What a claim is.
#[verifier::ext_equal]
pub struct ClaimView {
    pub text: Seq<char>,
    pub source: Seq<char>,
}

impl View for Claim {
    type V = ClaimView;

    open spec fn view(&self) -> ClaimView {
        ClaimView { text: self.text@, source: self.source@ }
    }
}

impl Clone for Claim {
    fn clone(&self) -> (r: Self)
        ensures
            r@ == self@,
    {
        Claim { text: self.text.clone(), source: self.source.clone() }
    }
}

/// How complete a result is.
#[derive(Clone, Copy, Debug, PartialEq, Eq, Structural)]
pub enum Status {
    Complete,
    /// The budget ran out, of iterations or of sources, with the question still open.
    Partial,
    /// Nothing was found.
    Aborted,
}

/// The result of the research.
#[derive(Debug)]
pub struct ResearchResult {
    pub question: String,
    pub answer_md: String,
    pub claims: Vec<Claim>,
    pub unverified_claims: Vec<String>,
    pub sources_used: Vec<String>,
    pub iterations: usize,
    pub status: Status,
}

// ---------------------------------------------------------------------------
// Verification
// ---------------------------------------------------------------------------

/// Whether a claim names one of the available sources.
pub open spec fn is_sourced(c: ClaimView, available: Seq<Seq<char>>) -> bool {
    c.source.len() > 0 && available.contains(c.source)
}

/// The claims that name one of the available sources, in order.
pub open spec fn sourced(claims: Seq<ClaimView>, available: Seq<Seq<char>>) -> Seq<ClaimView>
    decreases claims.len(),
{
    if claims.len() == 0 {
        seq![]
    } else {
        let before = sourced(claims.drop_last(), available);
        if is_sourced(claims.last(), available) {
            before.push(claims.last())
        } else {
            before
        }
    }
}

/// The texts of the other claims, in order.
pub open spec fn unsourced(claims: Seq<ClaimView>, available: Seq<Seq<char>>) -> Seq<Seq<char>>
    decreases claims.len(),
{
    if claims.len() == 0 {
        seq![]
    } else {
        let before = unsourced(claims.drop_last(), available);
        if is_sourced(claims.last(), available) {
            before
        } else {
            before.push(claims.last().text)
        }
    }
}

/// Separates the claims that name one of the available sources from the others.
pub fn verify_claims(claims: Vec<Claim>, available: &Vec<String>) -> (r: (Vec<Claim>, Vec<String>))
    ensures
        views(r.0@) == sourced(views(claims@), views(available@)),
        views(r.1@) == unsourced(views(claims@), views(available@)),
{
    let ghost all = views(claims@);
    let ghost urls = views(available@);
    let mut verified: Vec<Claim> = Vec::new();
    let mut unverified: Vec<String> = Vec::new();
    let mut i: usize = 0;
    assert(views(verified@) =~= seq![] && views(unverified@) =~= seq![]);
    while i < claims.len()
        invariant
            i <= claims@.len(),
            all == views(claims@),
            urls == views(available@),
            views(verified@) == sourced(all.take(i as int), urls),
            views(unverified@) == unsourced(all.take(i as int), urls),
        decreases claims.len() - i,
    {
        proof {
            assert(all.take(i + 1).drop_last() =~= all.take(i as int));
            assert(all.take(i + 1).last() == claims@[i as int]@);
        }
        if !claims[i].source.as_str().is_empty() && holds(available, &claims[i].source) {
            let ghost prev = verified@;
            verified.push(claims[i].clone());
            assert(views(verified@) =~= views(prev).push(all[i as int]));
        } else {
            let ghost prev = unverified@;
            unverified.push(claims[i].text.clone());
            assert(views(unverified@) =~= views(prev).push(all[i as int].text));
        }
        i = i + 1;
    }
    assert(all.take(i as int) =~= all);
    (verified, unverified)
}

/// Every claim that is kept names an available source; none is lost.
pub proof fn claims_are_sourced(claims: Seq<ClaimView>, available: Seq<Seq<char>>)
    ensures
        forall|i: int|
            0 <= i < sourced(claims, available).len() ==> is_sourced(#[trigger] sourced(claims, available)[i], available),
        forall|i: int|
            0 <= i < sourced(claims, available).len() ==> claims.contains(#[trigger] sourced(claims, available)[i]),
        sourced(claims, available).len() + unsourced(claims, available).len() == claims.len(),
    decreases claims.len(),
{
    if claims.len() > 0 {
        let before = claims.drop_last();
        claims_are_sourced(before, available);
        let kept = sourced(before, available);
        let all = sourced(claims, available);
        assert forall|i: int| 0 <= i < all.len() implies is_sourced(#[trigger] all[i], available) && claims.contains(
            all[i],
        ) by {
            if i < kept.len() {
                assert(all[i] == kept[i]);
                assert(before.contains(kept[i]));
                let k = choose|k: int| 0 <= k < before.len() && before[k] == kept[i];
                assert(claims[k] == all[i]);
            } else {
                assert(claims[claims.len() - 1] == all[i]);
            }
        }
    }
}

// ---------------------------------------------------------------------------
// The loop
// ---------------------------------------------------------------------------

/// Where the loop stands.
#[derive(Clone, Copy, Debug, PartialEq, Eq, Structural)]
pub enum Phase {
    /// A search is next, if the budget allows.
    Searching,
    /// Something new was found; the model is to say whether it suffices.
    Reflecting,
    /// The search is over.
    Concluding,
}

/// Research in progress.
#[derive(Debug)]
pub struct Research {
    pub question: String,
    pub query: String,
    pub docs: Vec<Doc>,
    pub iterations: usize,
    pub budget: Budget,
    pub phase: Phase,
}

/// What research in progress is.
#[verifier::ext_equal]
pub struct ResearchView {
    pub question: Seq<char>,
    pub query: Seq<char>,
    pub docs: Seq<DocView>,
    pub iterations: nat,
    pub budget: Budget,
    pub phase: Phase,
}

impl View for Research {
    type V = ResearchView;

    open spec fn view(&self) -> ResearchView {
        ResearchView {
            question: self.question@,
            query: self.query@,
            docs: views(self.docs@),
            iterations: self.iterations as nat,
            budget: self.budget,
            phase: self.phase,
        }
    }
}

/// Whether some document has the given address.
pub open spec fn has_url(docs: Seq<DocView>, url: Seq<char>) -> bool {
    exists|i: int| 0 <= i < docs.len() && (#[trigger] docs[i]).url == url
}

/// The documents and, behind them, those found with new addresses.
pub open spec fn merged(docs: Seq<DocView>, found: Seq<DocView>) -> Seq<DocView>
    decreases found.len(),
{
    if found.len() == 0 {
        docs
    } else {
        let before = merged(docs, found.drop_last());
        if has_url(before, found.last().url) {
            before
        } else {
            before.push(found.last())
        }
    }
}

/// What the next step is.
#[derive(Debug)]
pub enum ResearchStep {
    /// Search for the query, for at most `limit` documents.
    Search { query: String, limit: usize },
    /// Ask the model whether what was found suffices.
    Reflect { request: Completion },
    /// Ask the model for an answer.
    Synthesize { request: Completion },
    /// Give up: nothing was found.
    Abort,
}

/// What a step is.
pub enum StepView {
    Search { query: Seq<char>, limit: nat },
    Reflect { request: CompletionView },
    Synthesize { request: CompletionView },
    Abort,
}

impl View for ResearchStep {
    type V = StepView;

    open spec fn view(&self) -> StepView {
        match self {
            ResearchStep::Search { query, limit } => StepView::Search { query: query@, limit: *limit as nat },
            ResearchStep::Reflect { request } => StepView::Reflect { request: request@ },
            ResearchStep::Synthesize { request } => StepView::Synthesize { request: request@ },
            ResearchStep::Abort => StepView::Abort,
        }
    }
}

/// What the model is asked once something was found.
pub open spec fn reflect_request_for(question: Seq<char>, found: nat) -> CompletionView {
    CompletionView {
        temperature: TEMPERATURE_3,
        ..plain_request(
            "Forschungsfrage: "@ + question + "\nBisher "@ + decimal(found)
                + " Quellen gelesen.\n\nIst die Frage ausreichend beantwortet? Antworte mit 'DONE', oder gib EINE präzisere Folge-Suchanfrage (eine Zeile)."@,
        )
    }
}

/// The documents as the synthesis sees them.
pub open spec fn corpus(docs: Seq<DocView>) -> Seq<char>
    decreases docs.len(),
{
    if docs.len() == 0 {
        seq![]
    } else {
        corpus(docs.drop_last()) + "["@ + docs.last().url + "] "@ + cut(docs.last().text, EXCERPT as nat) + "\n"@
    }
}

/// What the model is asked at the end.
pub open spec fn synthesis_request_for(question: Seq<char>, docs: Seq<DocView>) -> CompletionView {
    CompletionView {
        system: Some(RESEARCH_SYSTEM@),
        temperature: TEMPERATURE_2,
        ..plain_request(
            "Frage: "@ + question + "\n\nQuellen:\n"@ + corpus(docs)
                + "\n\nFasse die Antwort zusammen. Belege JEDE Aussage mit genau einer Quellen-URL aus der Liste. Antworte NUR mit JSON: {\"answer\":\"...\",\"claims\":[{\"text\":\"...\",\"source\":\"<url>\"}]}."@,
        )
    }
}

/// Whether the documents have different addresses.
pub open spec fn are_distinct(docs: Seq<DocView>) -> bool {
    forall|i: int, j: int| 0 <= i < j < docs.len() ==> (#[trigger] docs[i]).url != (#[trigger] docs[j]).url
}

/// Whether the budget allows another search.
pub open spec fn may_search(s: ResearchView) -> bool {
    s.iterations < s.budget.max_iterations && s.docs.len() < s.budget.max_sources
}

/// Whether the research ends with the question still open: another search was
/// wanted, and the budget did not allow it.
pub open spec fn is_cut_short(s: ResearchView) -> bool {
    s.phase == Phase::Searching && !may_search(s)
}

/// What the next step is.
pub open spec fn next_step(s: ResearchView) -> StepView {
    if s.phase == Phase::Searching && may_search(s) {
        StepView::Search { query: s.query, limit: (s.budget.max_sources - s.docs.len()) as nat }
    } else if s.phase == Phase::Reflecting {
        StepView::Reflect { request: reflect_request_for(s.question, s.docs.len()) }
    } else if s.docs.len() == 0 {
        StepView::Abort
    } else {
        StepView::Synthesize { request: synthesis_request_for(s.question, s.docs) }
    }
}

/// Where a search leads: something new is reflected on, nothing new ends the search.
pub open spec fn after_search(s: ResearchView, found: Seq<DocView>) -> ResearchView {
    let docs = merged(s.docs, found);
    ResearchView {
        docs,
        iterations: s.iterations + 1,
        phase: if docs.len() > s.docs.len() {
            Phase::Reflecting
        } else {
            Phase::Concluding
        },
        ..s
    }
}

/// The next query in the model's reply: its first line. None if the model has
/// nothing to say or says that it is done.
pub open spec fn next_query(reply: Seq<char>) -> Option<Seq<char>> {
    let text = trimmed(reply, CharClass::WhiteSpace);
    if text.len() == 0 || has_part(uppercase(text), "DONE"@) {
        None
    } else {
        Some(
            trimmed(
                if lines(text).len() > 0 {
                    lines(text)[0]
                } else {
                    text
                },
                CharClass::WhiteSpace,
            ),
        )
    }
}

/// Where a reflection leads.
pub open spec fn after_reflection(s: ResearchView, reply: Seq<char>) -> ResearchView {
    match next_query(reply) {
        Some(q) => ResearchView { query: q, phase: Phase::Searching, ..s },
        None => ResearchView { phase: Phase::Concluding, ..s },
    }
}

/// Reads the next query off the model's reply.
fn read_query(reply: &str) -> (r: Option<String>)
    ensures
        match r {
            Some(q) => next_query(reply@) == Some(q@),
            None => next_query(reply@) is None,
        },
{
    let text = trim(reply, CharClass::WhiteSpace);
    if text.as_str().is_empty() {
        return None;
    }
    let upper = text.as_str().to_uppercase();
    if contains_part(&upper, "DONE") {
        return None;
    }
    let all = split_lines(&text);
    if all.len() > 0 {
        assert(views(all@)[0] == all@[0]@);
        Some(trim(&all[0], CharClass::WhiteSpace))
    } else {
        Some(trim(&text, CharClass::WhiteSpace))
    }
}

/// Whether one of the documents has the given address.
fn url_among(docs: &Vec<Doc>, url: &str) -> (r: bool)
    ensures
        r == has_url(views(docs@), url@),
{
    let mut i: usize = 0;
    while i < docs.len()
        invariant
            i <= docs@.len(),
            forall|k: int| 0 <= k < i ==> (#[trigger] views(docs@)[k]).url != url@,
        decreases docs.len() - i,
    {
        if same(&docs[i].url, url) {
            assert(views(docs@)[i as int].url == url@);
            return true;
        }
        i = i + 1;
    }
    false
}

/// The documents as the synthesis sees them.
fn corpus_text(docs: &Vec<Doc>) -> (r: String)
    ensures
        r@ == corpus(views(docs@)),
{
    let ghost all = views(docs@);
    let mut out = String::new();
    let mut i: usize = 0;
    while i < docs.len()
        invariant
            i <= docs@.len(),
            all == views(docs@),
            out@ == corpus(all.take(i as int)),
        decreases docs.len() - i,
    {
        out.append("[");
        out.append(&docs[i].url);
        out.append("] ");
        out.append(&truncate(&docs[i].text, EXCERPT));
        out.append("\n");
        proof {
            assert(all.take(i + 1).drop_last() =~= all.take(i as int));
            assert(all.take(i + 1).last() == docs@[i as int]@);
        }
        i = i + 1;
    }
    assert(all.take(i as int) =~= all);
    out
}

/// The addresses of documents.
pub open spec fn urls(docs: Seq<DocView>) -> Seq<Seq<char>> {
    Seq::new(docs.len(), |i: int| docs[i].url)
}

/// Lists the addresses of documents.
fn list_urls(docs: &Vec<Doc>) -> (r: Vec<String>)
    ensures
        views(r@) == urls(views(docs@)),
{
    let ghost all = urls(views(docs@));
    let mut out: Vec<String> = Vec::new();
    let mut i: usize = 0;
    while i < docs.len()
        invariant
            i <= docs@.len(),
            all == urls(views(docs@)),
            views(out@) == all.take(i as int),
        decreases docs.len() - i,
    {
        let ghost prev = out@;
        out.push(docs[i].url.clone());
        assert(views(out@) =~= views(prev).push(all[i as int]));
        assert(all.take(i + 1) =~= all.take(i as int).push(all[i as int]));
        i = i + 1;
    }
    assert(all.take(i as int) =~= all);
    out
}

impl Research {
    /// Whether the documents have different addresses, and the searches and the
    /// documents keep to the budget.
    pub open spec fn well_formed(&self) -> bool {
        &&& self@.iterations <= self@.budget.max_iterations
        &&& self@.docs.len() <= self@.budget.max_sources
        &&& are_distinct(self@.docs)
    }

    /// Starts with the question as the first query.
    pub fn start(question: &str, budget: Budget) -> (r: Research)
        ensures
            r@ == (ResearchView {
                question: question@,
                query: question@,
                docs: seq![],
                iterations: 0,
                budget,
                phase: Phase::Searching,
            }),
            r.well_formed(),
    {
        let docs: Vec<Doc> = Vec::new();
        assert(views(docs@) =~= seq![]);
        Research {
            question: question.to_string(),
            query: question.to_string(),
            docs,
            iterations: 0,
            budget,
            phase: Phase::Searching,
        }
    }

    /// The next step.
    pub fn next(&self) -> (r: ResearchStep)
        ensures
            r@ == next_step(self@),
    {
        match self.phase {
            Phase::Searching => {
                if self.iterations < self.budget.max_iterations && self.docs.len() < self.budget.max_sources {
                    return ResearchStep::Search {
                        query: self.query.clone(),
                        limit: self.budget.max_sources - self.docs.len(),
                    };
                }
            },
            Phase::Reflecting => {
                let mut prompt = String::new();
                prompt.append("Forschungsfrage: ");
                prompt.append(&self.question);
                prompt.append("\nBisher ");
                prompt.append(&print_number(self.docs.len() as u64));
                prompt.append(
                    " Quellen gelesen.\n\nIst die Frage ausreichend beantwortet? Antworte mit 'DONE', oder gib EINE präzisere Folge-Suchanfrage (eine Zeile).",
                );
                assert(prompt@ =~= reflect_request_for(self@.question, self@.docs.len()).prompt);
                return ResearchStep::Reflect { request: Completion::new(prompt).temperature(TEMPERATURE_3) };
            },
            Phase::Concluding => {},
        }
        if self.docs.len() == 0 {
            ResearchStep::Abort
        } else {
            let mut prompt = String::new();
            prompt.append("Frage: ");
            prompt.append(&self.question);
            prompt.append("\n\nQuellen:\n");
            prompt.append(&corpus_text(&self.docs));
            prompt.append(
                "\n\nFasse die Antwort zusammen. Belege JEDE Aussage mit genau einer Quellen-URL aus der Liste. Antworte NUR mit JSON: {\"answer\":\"...\",\"claims\":[{\"text\":\"...\",\"source\":\"<url>\"}]}.",
            );
            assert(prompt@ =~= synthesis_request_for(self@.question, self@.docs).prompt);
            ResearchStep::Synthesize {
                request: Completion::new(prompt).with_system(RESEARCH_SYSTEM).temperature(TEMPERATURE_2),
            }
        }
    }

    /// Takes in what a search found. Where the search kept to its limit, the
    /// documents keep to the budget.
    pub fn found(&mut self, found: Vec<Doc>)
        requires
            old(self)@.phase == Phase::Searching,
            may_search(old(self)@),
        ensures
            final(self)@ == after_search(old(self)@, views(found@)),
            are_distinct(old(self)@.docs) ==> are_distinct(final(self)@.docs),
            old(self).well_formed() && found@.len() <= old(self)@.budget.max_sources - old(self)@.docs.len()
                ==> final(self).well_formed(),
    {
        let before: usize = self.docs.len();
        let ghost start = self@;
        let ghost all = views(found@);
        let mut i: usize = 0;
        while i < found.len()
            invariant
                i <= found@.len(),
                all == views(found@),
                self@ == (ResearchView { docs: merged(start.docs, all.take(i as int)), ..start }),
                start.docs.len() == before <= self.docs@.len(),
            decreases found.len() - i,
        {
            proof {
                assert(all.take(i + 1).drop_last() =~= all.take(i as int));
                assert(all.take(i + 1).last() == found@[i as int]@);
            }
            if !url_among(&self.docs, &found[i].url) {
                let ghost prev = self.docs@;
                self.docs.push(found[i].clone());
                assert(views(self.docs@) =~= views(prev).push(all[i as int]));
            }
            i = i + 1;
        }
        assert(all.take(i as int) =~= all);
        self.iterations = self.iterations + 1;
        self.phase = if self.docs.len() > before {
            Phase::Reflecting
        } else {
            Phase::Concluding
        };
        proof {
            lemma_merged_distinct(start.docs, all);
        }
    }

    /// Takes in the model's reply to the reflection.
    pub fn reflected(&mut self, reply: &str)
        requires
            old(self)@.phase == Phase::Reflecting,
        ensures
            final(self)@ == after_reflection(old(self)@, reply@),
            old(self).well_formed() ==> final(self).well_formed(),
    {
        match read_query(reply) {
            Some(q) => {
                self.query = q;
                self.phase = Phase::Searching;
            },
            None => {
                self.phase = Phase::Concluding;
            },
        }
    }

    /// The result where nothing was found.
    pub fn aborted(self) -> (r: ResearchResult)
        requires
            self@.docs.len() == 0,
        ensures
            r.question@ == self@.question,
            r.answer_md@ == Seq::<char>::empty(),
            r.claims@.len() == 0,
            r.unverified_claims@.len() == 0,
            r.sources_used@.len() == 0,
            r.iterations == self@.iterations,
            r.status == Status::Aborted,
    {
        ResearchResult {
            question: self.question,
            answer_md: String::new(),
            claims: Vec::new(),
            unverified_claims: Vec::new(),
            sources_used: Vec::new(),
            iterations: self.iterations,
            status: Status::Aborted,
        }
    }

    /// The result for the model's answer and claims. The result is partial where
    /// the model asked on and the budget, of iterations or of sources, was spent.
    pub fn finish(self, answer: String, claims: Vec<Claim>) -> (r: ResearchResult)
        requires
            self@.docs.len() > 0,
        ensures
            r.question@ == self@.question,
            r.answer_md@ == answer@,
            views(r.claims@) == sourced(views(claims@), urls(self@.docs)),
            views(r.unverified_claims@) == unsourced(views(claims@), urls(self@.docs)),
            views(r.sources_used@) == urls(self@.docs),
            r.iterations == self@.iterations,
            r.status == if is_cut_short(self@) {
                Status::Partial
            } else {
                Status::Complete
            },
    {
        let available = list_urls(&self.docs);
        let (verified, unverified) = verify_claims(claims, &available);
        let status = match self.phase {
            Phase::Searching => {
                if self.iterations >= self.budget.max_iterations || self.docs.len() >= self.budget.max_sources {
                    Status::Partial
                } else {
                    Status::Complete
                }
            },
            _ => Status::Complete,
        };
        ResearchResult {
            question: self.question,
            answer_md: answer,
            claims: verified,
            unverified_claims: unverified,
            sources_used: available,
            iterations: self.iterations,
            status,
        }
    }
}

/// Merging keeps the addresses different, and adds what was found at most.
proof fn lemma_merged_distinct(docs: Seq<DocView>, found: Seq<DocView>)
    ensures
        docs.len() <= merged(docs, found).len() <= docs.len() + found.len(),
        are_distinct(docs) ==> are_distinct(merged(docs, found)),
    decreases found.len(),
{
    if found.len() > 0 {
        let before = merged(docs, found.drop_last());
        let after = merged(docs, found);
        lemma_merged_distinct(docs, found.drop_last());
        if are_distinct(docs) {
            assert forall|i: int, j: int| 0 <= i < j < after.len() implies (#[trigger] after[i]).url != (
            #[trigger] after[j]).url by {
                assert(after[i] == before[i]);
                if j < before.len() {
                    assert(after[j] == before[j]);
                } else {
                    assert(before[i].url != found.last().url);
                }
            }
        }
    }
}

/// A search that the budget allows keeps the research within it: in iterations,
/// and in documents where the search keeps to the limit of its step.
pub proof fn research_keeps_to_budget(s: ResearchView, found: Seq<DocView>)
    requires
        may_search(s),
    ensures
        after_search(s, found).iterations <= s.budget.max_iterations,
        after_search(s, found).docs.len() >= s.docs.len(),
        found.len() <= s.budget.max_sources - s.docs.len() ==> after_search(s, found).docs.len()
            <= s.budget.max_sources,
{
    lemma_merged_distinct(s.docs, found);
}

/// Whichever limit is reached first: where a reflection asks on and one of the
/// limits is reached, the next step is the synthesis of what was found, and the
/// research is cut short.
pub proof fn spent_budget_gives_partial_result(s: ResearchView, reply: Seq<char>)
    requires
        s.phase == Phase::Reflecting,
        s.docs.len() > 0,
        next_query(reply) is Some,
        s.iterations >= s.budget.max_iterations || s.docs.len() >= s.budget.max_sources,
    ensures
        is_cut_short(after_reflection(s, reply)),
        next_step(after_reflection(s, reply)) is Synthesize,
{
}

/// What the result claims is sourced: each claim names one of the sources used.
pub proof fn result_is_sourced(claims: Seq<ClaimView>, docs: Seq<DocView>, i: int)
    requires
        0 <= i < sourced(claims, urls(docs)).len(),
    ensures
        has_url(docs, sourced(claims, urls(docs))[i].source),
{
    claims_are_sourced(claims, urls(docs));
    let source = sourced(claims, urls(docs))[i].source;
    assert(urls(docs).contains(source));
    let k = choose|k: int| 0 <= k < urls(docs).len() && urls(docs)[k] == source;
    assert(docs[k].url == source);
}

/// A claim is kept exactly where it names a source and that source is available,
/// wherever the source stands; every claim that is kept was made, and what is kept
/// stands in the order of the claims.
pub proof fn claim_is_kept_for_its_source(claims: Seq<ClaimView>, available: Seq<Seq<char>>)
    ensures
        forall|k: int|
            0 <= k < claims.len() && claims[k].source.len() > 0 && available.contains(claims[k].source)
                ==> sourced(claims, available).contains(#[trigger] claims[k]),
        forall|c: ClaimView| #[trigger]
            sourced(claims, available).contains(c) ==> claims.contains(c) && c.source.len() > 0
                && available.contains(c.source),
        sourced(claims, available) == claims.filter(
            |c: ClaimView| c.source.len() > 0 && available.contains(c.source),
        ),
    decreases claims.len(),
{
    reveal(Seq::filter);
    let good = |c: ClaimView| c.source.len() > 0 && available.contains(c.source);
    if claims.len() > 0 {
        let before = claims.drop_last();
        let last = claims.last();
        claim_is_kept_for_its_source(before, available);
        let old_kept = sourced(before, available);
        let kept = sourced(claims, available);
        assert forall|k: int|
            0 <= k < claims.len() && claims[k].source.len() > 0 && available.contains(claims[k].source) implies kept.contains(
            #[trigger] claims[k],
        ) by {
            if k < before.len() {
                assert(old_kept.contains(before[k]));
                let m = choose|m: int| 0 <= m < old_kept.len() && old_kept[m] == before[k];
                assert(kept[m] == claims[k]);
            } else {
                assert(kept[kept.len() - 1] == claims[k]);
            }
        }
        assert forall|c: ClaimView| #[trigger] kept.contains(c) implies claims.contains(c) && c.source.len() > 0
            && available.contains(c.source) by {
            let m = choose|m: int| 0 <= m < kept.len() && kept[m] == c;
            if m < old_kept.len() {
                assert(old_kept.contains(c));
                let k = choose|k: int| 0 <= k < before.len() && before[k] == c;
                assert(claims[k] == c);
            } else {
                assert(claims[claims.len() - 1] == c);
            }
        }
    }
}

/// What is not kept is listed: the texts of the claims without a source, or with one
/// that is not available, and no others, in the order of the claims.
pub proof fn unsourced_claims_are_listed(claims: Seq<ClaimView>, available: Seq<Seq<char>>)
    ensures
        forall|k: int|
            0 <= k < claims.len() && (claims[k].source.len() == 0 || !available.contains(claims[k].source))
                ==> unsourced(claims, available).contains((#[trigger] claims[k]).text),
        forall|t: Seq<char>| #[trigger]
            unsourced(claims, available).contains(t) ==> exists|k: int|
                0 <= k < claims.len() && (#[trigger] claims[k]).text == t && (claims[k].source.len() == 0
                    || !available.contains(claims[k].source)),
        unsourced(claims, available) == claims.filter(
            |c: ClaimView| c.source.len() == 0 || !available.contains(c.source),
        ).map_values(|c: ClaimView| c.text),
    decreases claims.len(),
{
    reveal(Seq::filter);
    let bad = |c: ClaimView| c.source.len() == 0 || !available.contains(c.source);
    let text = |c: ClaimView| c.text;
    if claims.len() > 0 {
        let before = claims.drop_last();
        let last = claims.last();
        unsourced_claims_are_listed(before, available);
        let old_listed = unsourced(before, available);
        let listed = unsourced(claims, available);
        if bad(last) {
            assert(listed == old_listed.push(last.text));
            assert(claims.filter(bad) == before.filter(bad).push(last));
        } else {
            assert(listed == old_listed);
            assert(claims.filter(bad) == before.filter(bad));
        }
        assert(listed =~= claims.filter(bad).map_values(text));
        assert forall|k: int|
            0 <= k < claims.len() && (claims[k].source.len() == 0 || !available.contains(
                claims[k].source,
            )) implies listed.contains((#[trigger] claims[k]).text) by {
            if k < before.len() {
                assert(old_listed.contains(before[k].text));
                let m = choose|m: int| 0 <= m < old_listed.len() && old_listed[m] == before[k].text;
                assert(listed[m] == claims[k].text);
            } else {
                assert(listed[listed.len() - 1] == claims[k].text);
            }
        }
        assert forall|t: Seq<char>| #[trigger] listed.contains(t) implies exists|k: int|
            0 <= k < claims.len() && (#[trigger] claims[k]).text == t && (claims[k].source.len() == 0
                || !available.contains(claims[k].source)) by {
            let m = choose|m: int| 0 <= m < listed.len() && listed[m] == t;
            if m < old_listed.len() {
                assert(old_listed.contains(t));
                let k = choose|k: int|
                    0 <= k < before.len() && (#[trigger] before[k]).text == t && (before[k].source.len() == 0
                        || !available.contains(before[k].source));
                assert(claims[k].text == t);
            } else {
                assert(claims[claims.len() - 1].text == t);
            }
        }
    } else {
        assert(unsourced(claims, available) =~= claims.filter(bad).map_values(text));
    }
}

// ---------------------------------------------------------------------------
// How a search goes on
// ---------------------------------------------------------------------------

/// What was found stands behind what was there, in order: each document whose address
/// is new, and of two with one address the first.
pub proof fn new_addresses_are_added(docs: Seq<DocView>, found: Seq<DocView>) -> (places: Seq<int>)
    ensures
        merged(docs, found) == docs + Seq::new(places.len(), |i: int| found[places[i]]),
        forall|i: int| 0 <= i < places.len() ==> 0 <= (#[trigger] places[i]) < found.len(),
        forall|i: int, j: int| 0 <= i < j < places.len() ==> (#[trigger] places[i]) < (#[trigger] places[j]),
        forall|k: int|
            0 <= k < found.len() ==> (#[trigger] places.contains(k) <==> (forall|j: int|
                0 <= j < docs.len() ==> (#[trigger] docs[j]).url != found[k].url) && (forall|j: int|
                0 <= j < k ==> (#[trigger] found[j]).url != found[k].url)),
    decreases found.len(),
{
    if found.len() == 0 {
        let places = Seq::<int>::empty();
        assert(merged(docs, found) =~= docs + Seq::new(places.len(), |i: int| found[places[i]]));
        places
    } else {
        let rest = found.drop_last();
        let n = rest.len() as int;
        let f = new_addresses_are_added(docs, rest);
        let before = merged(docs, rest);
        let url = found.last().url;
        let added = Seq::new(f.len(), |i: int| rest[f[i]]);
        let places = if has_url(before, url) {
            f
        } else {
            f.push(n)
        };
        assert(merged(docs, found) =~= docs + Seq::new(places.len(), |i: int| found[places[i]]));
        assert(has_url(before, url) <==> (exists|j: int| 0 <= j < docs.len() && (#[trigger] docs[j]).url == url) || (
        exists|j: int| 0 <= j < n && (#[trigger] rest[j]).url == url)) by {
            if exists|j: int| 0 <= j < docs.len() && (#[trigger] docs[j]).url == url {
                let j = choose|j: int| 0 <= j < docs.len() && (#[trigger] docs[j]).url == url;
                assert(before[j].url == url);
            } else if exists|j: int| 0 <= j < n && (#[trigger] rest[j]).url == url {
                let j = choose|j: int| 0 <= j < n && (#[trigger] rest[j]).url == url;
                let m = lemma_first_of_address(rest, j);
                assert(f.contains(m));
                let i = choose|i: int| 0 <= i < f.len() && f[i] == m;
                assert(before[docs.len() + i] == rest[m]);
            }
            if has_url(before, url) {
                let i = choose|i: int| 0 <= i < before.len() && (#[trigger] before[i]).url == url;
                if i < docs.len() {
                    assert(docs[i].url == url);
                } else {
                    assert(before[i] == added[i - docs.len()]);
                    assert(rest[f[i - docs.len()]].url == url);
                }
            }
        }
        assert forall|k: int| 0 <= k < found.len() implies (#[trigger] places.contains(k) <==> (forall|j: int|
            0 <= j < docs.len() ==> (#[trigger] docs[j]).url != found[k].url) && (forall|j: int|
            0 <= j < k ==> (#[trigger] found[j]).url != found[k].url)) by {
            assert(forall|j: int| 0 <= j < n ==> #[trigger] rest[j] == found[j]);
            assert(forall|j: int| 0 <= j < n ==> rest[j] == #[trigger] found[j]);
            if k < n {
                assert(f.contains(k) <==> places.contains(k)) by {
                    if f.contains(k) {
                        let i = choose|i: int| 0 <= i < f.len() && f[i] == k;
                        assert(places[i] == k);
                    }
                    if places.contains(k) {
                        let i = choose|i: int| 0 <= i < places.len() && places[i] == k;
                        assert(i < f.len());
                        assert(f[i] == k);
                    }
                }
            } else {
                assert(places.contains(n) <==> !has_url(before, url)) by {
                    if !has_url(before, url) {
                        assert(places[f.len() as int] == n);
                    } else if places.contains(n) {
                        let i = choose|i: int| 0 <= i < f.len() && f[i] == n;
                        assert(f[i] < n);
                    }
                }
            }
        }
        places
    }
}

proof fn lemma_first_of_address(docs: Seq<DocView>, j: int) -> (m: int)
    requires
        0 <= j < docs.len(),
    ensures
        0 <= m <= j,
        docs[m].url == docs[j].url,
        forall|i: int| 0 <= i < m ==> (#[trigger] docs[i]).url != docs[m].url,
    decreases j,
{
    if exists|i: int| 0 <= i < j && (#[trigger] docs[i]).url == docs[j].url {
        let i = choose|i: int| 0 <= i < j && (#[trigger] docs[i]).url == docs[j].url;
        lemma_first_of_address(docs, i)
    } else {
        j
    }
}

/// A search leaves the question and the budget as they are and counts as one more;
/// something new is reflected on, and nothing new ends the search.
pub proof fn search_adds_what_is_new(s: ResearchView, found: Seq<DocView>)
    ensures
        after_search(s, found).question == s.question,
        after_search(s, found).query == s.query,
        after_search(s, found).budget == s.budget,
        after_search(s, found).iterations == s.iterations + 1,
        s.docs.is_prefix_of(after_search(s, found).docs),
        after_search(s, found).phase == Phase::Reflecting <==> exists|k: int|
            0 <= k < found.len() && forall|j: int| 0 <= j < s.docs.len() ==> (#[trigger] s.docs[j]).url != (
            #[trigger] found[k]).url,
        after_search(s, found).phase != Phase::Searching,
{
    let places = new_addresses_are_added(s.docs, found);
    let docs = merged(s.docs, found);
    assert(docs.take(s.docs.len() as int) =~= s.docs);
    if docs.len() > s.docs.len() {
        assert(places.contains(places[0]));
        let k = places[0];
        assert(forall|j: int| 0 <= j < s.docs.len() ==> (#[trigger] s.docs[j]).url != found[k].url);
    }
    if exists|k: int|
        0 <= k < found.len() && forall|j: int| 0 <= j < s.docs.len() ==> (#[trigger] s.docs[j]).url != (
        #[trigger] found[k]).url {
        let k = choose|k: int|
            0 <= k < found.len() && forall|j: int| 0 <= j < s.docs.len() ==> (#[trigger] s.docs[j]).url != (
            #[trigger] found[k]).url;
        let m = lemma_first_of_address(found, k);
        assert(places.contains(m));
    }
}

/// What comes next: a search exactly while one is wanted and neither limit is reached,
/// for as many documents as the budget leaves; a reflection exactly where something
/// new was found; and at the end an answer, unless nothing was found at all.
pub proof fn budget_decides_the_step(s: ResearchView)
    ensures
        next_step(s) is Search <==> s.phase == Phase::Searching && s.iterations < s.budget.max_iterations && s.docs.len()
            < s.budget.max_sources,
        next_step(s) is Search ==> next_step(s)->query == s.query && next_step(s)->limit + s.docs.len()
            == s.budget.max_sources,
        next_step(s) is Reflect <==> s.phase == Phase::Reflecting,
        next_step(s) is Abort <==> s.docs.len() == 0 && !(next_step(s) is Search) && !(next_step(s) is Reflect),
        next_step(s) is Synthesize <==> s.docs.len() > 0 && !(next_step(s) is Search) && !(next_step(s) is Reflect),
        is_cut_short(s) <==> s.phase == Phase::Searching && (s.iterations >= s.budget.max_iterations || s.docs.len()
            >= s.budget.max_sources),
{
}

/// A reply of one line is the next query, without the blanks around it, unless it says
/// that the model is done. A blank reply ends the search as well. What was found stays.
pub proof fn one_line_is_the_next_query(p: Seq<char>, w: Seq<char>, q: Seq<char>, s: ResearchView)
    requires
        forall|i: int| 0 <= i < p.len() ==> white_space(#[trigger] p[i]),
        forall|i: int| 0 <= i < q.len() ==> white_space(#[trigger] q[i]),
        w.len() > 0 ==> !white_space(w[0]) && !white_space(w.last()),
        !w.contains('\n'),
    ensures
        w.len() > 0 && !has_part(uppercase(w), "DONE"@) ==> next_query(p + w + q) == Some(w),
        w.len() == 0 ==> next_query(p + w + q) is None,
        has_part(uppercase(w), "DONE"@) ==> next_query(p + w + q) is None,
        after_reflection(s, p + w + q).docs == s.docs,
        after_reflection(s, p + w + q).iterations == s.iterations,
        after_reflection(s, p + w + q).question == s.question,
        after_reflection(s, p + w + q).budget == s.budget,
        next_query(p + w + q) is Some ==> after_reflection(s, p + w + q).phase == Phase::Searching
            && after_reflection(s, p + w + q).query == w,
        next_query(p + w + q) is None ==> after_reflection(s, p + w + q).phase == Phase::Concluding,
{
    blanks_are_trimmed(p, w, q);
    lines_end_at_line_feeds(w);
    blanks_are_trimmed(seq![], w, seq![]);
    assert(Seq::<char>::empty() + w + Seq::<char>::empty() =~= w);
}

/// Of a reply of several lines the first is the next query.
pub proof fn first_line_is_the_next_query(w: Seq<char>, rest: Seq<char>)
    requires
        w.len() > 0,
        !white_space(w[0]),
        !white_space(w.last()),
        !w.contains('\n'),
        rest.len() > 0,
        !white_space(rest.last()),
        !has_part(uppercase(w.push('\n') + rest), "DONE"@),
    ensures
        next_query(w.push('\n') + rest) == Some(w),
{
    let text = w.push('\n') + rest;
    blanks_are_trimmed(seq![], text, seq![]);
    assert(Seq::<char>::empty() + text + Seq::<char>::empty() =~= text);
    separator_ends_a_piece(w, rest, '\n');
    lines_end_at_line_feeds(w);
    assert(w.last() != '\r');
    assert(lines(text)[0] == w);
    blanks_are_trimmed(seq![], w, seq![]);
    assert(Seq::<char>::empty() + w + Seq::<char>::empty() =~= w);
}

/// The synthesis sees every document, in order, under its address: its first five
/// hundred characters.
pub proof fn every_document_is_seen(a: Seq<DocView>, b: Seq<DocView>, one: DocView, question: Seq<char>)
    ensures
        corpus(a + b) == corpus(a) + corpus(b),
        one.text.len() <= 500 ==> corpus(seq![one]) == "["@ + one.url + "] "@ + one.text + "\n"@,
        one.text.len() > 500 ==> corpus(seq![one]) == "["@ + one.url + "] "@ + one.text.take(500) + "\n"@,
        has_part(synthesis_request_for(question, a).prompt, question),
        has_part(synthesis_request_for(question, a).prompt, corpus(a)),
        has_part(reflect_request_for(question, a.len()).prompt, question),
    decreases b.len(),
{
    assert(seq![one].drop_last() =~= Seq::<DocView>::empty());
    assert(corpus(seq![one].drop_last()) =~= Seq::<char>::empty());
    assert(corpus(seq![one]) =~= "["@ + one.url + "] "@ + cut(one.text, 500) + "\n"@);
    if b.len() == 0 {
        assert(a + b =~= a);
        assert(corpus(a) + corpus(b) =~= corpus(a));
        let all = corpus(a);
        let p = synthesis_request_for(question, a).prompt;
        let tail = "\n\nFasse die Antwort zusammen. Belege JEDE Aussage mit genau einer Quellen-URL aus der Liste. Antworte NUR mit JSON: {\"answer\":\"...\",\"claims\":[{\"text\":\"...\",\"source\":\"<url>\"}]}."@;
        part_stands_between(p, question, "Frage: "@, "\n\nQuellen:\n"@ + all + tail);
        assert(p =~= "Frage: "@ + question + ("\n\nQuellen:\n"@ + all + tail));
        part_stands_between(p, all, "Frage: "@ + question + "\n\nQuellen:\n"@, tail);
        let r = reflect_request_for(question, a.len()).prompt;
        let ask = " Quellen gelesen.\n\nIst die Frage ausreichend beantwortet? Antworte mit 'DONE', oder gib EINE präzisere Folge-Suchanfrage (eine Zeile)."@;
        let n = decimal(a.len());
        part_stands_between(r, question, "Forschungsfrage: "@, "\nBisher "@ + n + ask);
        assert(r =~= "Forschungsfrage: "@ + question + ("\nBisher "@ + n + ask));
    } else {
        every_document_is_seen(a, b.drop_last(), one, question);
        assert((a + b).drop_last() =~= a + b.drop_last());
        assert(corpus(a + b) =~= corpus(a) + corpus(b));
    }
}

} // verus!
