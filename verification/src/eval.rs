//! What makes a good briefing: its structure, a judge's opinion, and what the
//! readers made of it.

use crate::briefing::{list_items, shown_items, Briefing, BriefingView, ContentItem, ItemView, SectionView};
use crate::llm::{plain_request, Completion, CompletionView, TEMPERATURE_2};
use crate::pipeline::{count_from, items_of_a_source_are_counted, of_source};
use crate::scan::{count_words, has_part, part_stands_between, words};
use crate::score::{is_nearest, significand_shows_nearest, Score};
use crate::store::EvalRow;
use crate::text::{clone_texts, same, views};
use vstd::prelude::*;

verus! {

/// The version of the rubric.
pub const RUBRIC_VERSION: &'static str = "r1";

/// How many words are read in a minute.
pub const WORDS_PER_MIN: u64 = 200;

/// The number 1.0, by its place among the doubles.
pub const ONE: i64 = 0x3ff0_0000_0000_0000;

pub const JUDGE_SYSTEM: &'static str = "Du bist ein strenger Redaktions-Gutachter. Antworte ausschließlich mit JSON.";

pub const RUBRIC: &'static str = "Bewerte das folgende Morning Briefing auf einer Skala von 0.0 bis 1.0 je Kriterium: relevance (Relevanz für einen KI-Unternehmer & Entwickler), novelty (Neuigkeitswert), diversity (thematische Vielfalt), anti_bubble (fordert es heraus statt nur zu bestätigen), concision (Prägnanz), actionability (Anschlussfähigkeit für Entscheidungen/Gespräche). Berechne overall als Gesamteindruck (0.0-1.0).";

/// How much each part counts.
#[derive(Clone, Copy, Debug, PartialEq, Eq, Structural)]
pub struct EvalWeights {
    pub behavior: Score,
    pub judge: Score,
    pub structure: Score,
}

impl Default for EvalWeights {
    /// The weights 0.5, 0.3 and 0.2.
    fn default() -> (r: Self)
        ensures
            r.behavior.place == 0x3fe0_0000_0000_0000,
            r.judge.place == 0x3fd3_3333_3333_3333,
            r.structure.place == 0x3fc9_9999_9999_999a,
    {
        EvalWeights {
            behavior: Score { place: 0x3fe0_0000_0000_0000 },
            judge: Score { place: 0x3fd3_3333_3333_3333 },
            structure: Score { place: 0x3fc9_9999_9999_999a },
        }
    }
}

/// The assessment of a briefing.
#[derive(Debug)]
pub struct EvalResult {
    pub behavior: Score,
    pub judge: Score,
    pub structure: Score,
    /// The weighted mean of the three.
    pub total: Score,
    pub notes: Vec<String>,
}

/// What an assessment is.
#[verifier::ext_equal]
pub struct EvalView {
    pub behavior: Score,
    pub judge: Score,
    pub structure: Score,
    pub total: Score,
    pub notes: Seq<Seq<char>>,
}

impl View for EvalResult {
    type V = EvalView;

    open spec fn view(&self) -> EvalView {
        EvalView {
            behavior: self.behavior,
            judge: self.judge,
            structure: self.structure,
            total: self.total,
            notes: views(self.notes@),
        }
    }
}

impl Clone for EvalResult {
    fn clone(&self) -> (r: Self)
        ensures
            r@ == self@,
    {
        EvalResult {
            behavior: self.behavior,
            judge: self.judge,
            structure: self.structure,
            total: self.total,
            notes: clone_texts(&self.notes),
        }
    }
}

// ---------------------------------------------------------------------------
// Structure
// ---------------------------------------------------------------------------

/// The words of some texts.
pub open spec fn text_words(list: Seq<Seq<char>>) -> nat
    decreases list.len(),
{
    if list.len() == 0 {
        0
    } else {
        text_words(list.drop_last()) + words(list.last())
    }
}

/// The words of an item: those of its title and its summary.
pub open spec fn item_words(it: ItemView) -> nat {
    words(it.title) + match it.summary {
        Some(s) => words(s),
        None => 0,
    }
}

/// The words of some items.
pub open spec fn items_words(items: Seq<ItemView>) -> nat
    decreases items.len(),
{
    if items.len() == 0 {
        0
    } else {
        items_words(items.drop_last()) + item_words(items.last())
    }
}

/// The words of a briefing.
pub open spec fn briefing_words(b: BriefingView) -> nat {
    text_words(b.tldr) + items_words(shown_items(b.sections))
}

/// `n`, or the largest number of 64 bits where it is larger.
pub open spec fn capped(n: nat) -> u64 {
    if n <= u64::MAX {
        n as u64
    } else {
        u64::MAX
    }
}

/// Counts the words of a briefing, as far as a number of 64 bits goes.
pub fn word_count(b: &Briefing) -> (r: u64)
    ensures
        r == capped(briefing_words(b@)),
{
    let ghost texts = b@.tldr;
    let mut n: u64 = 0;
    let mut i: usize = 0;
    while i < b.tldr.len()
        invariant
            i <= b.tldr@.len(),
            texts == views(b.tldr@),
            n == capped(text_words(texts.take(i as int))),
        decreases b.tldr.len() - i,
    {
        proof {
            assert(texts.take(i + 1).drop_last() =~= texts.take(i as int));
            assert(texts.take(i + 1).last() == b.tldr@[i as int]@);
        }
        n = n.saturating_add(count_words(&b.tldr[i]) as u64);
        i = i + 1;
    }
    assert(texts.take(i as int) =~= texts);
    let shown = list_items(b);
    let ghost all = views(shown@);
    let mut k: usize = 0;
    while k < shown.len()
        invariant
            k <= shown@.len(),
            all == views(shown@),
            n == capped(text_words(texts) + items_words(all.take(k as int))),
        decreases shown.len() - k,
    {
        proof {
            assert(all.take(k + 1).drop_last() =~= all.take(k as int));
            assert(all.take(k + 1).last() == shown@[k as int]@);
        }
        n = n.saturating_add(count_words(&shown[k].title) as u64);
        match &shown[k].summary {
            Some(s) => {
                n = n.saturating_add(count_words(s) as u64);
            },
            None => {},
        }
        k = k + 1;
    }
    assert(all.take(k as int) =~= all);
    n
}

/// Whether some section has the given identifier.
pub open spec fn has_section(sections: Seq<SectionView>, id: Seq<char>) -> bool {
    exists|i: int| 0 <= i < sections.len() && (#[trigger] sections[i]).id == id
}

/// Whether no source stands for more than three fifths of the items, where
/// there are three items or more.
pub open spec fn is_diverse(items: Seq<ItemView>) -> bool {
    items.len() < 3 || forall|i: int|
        0 <= i < items.len() ==> 5 * count_from(items, (#[trigger] items[i]).source_id) <= 3 * items.len()
}

/// Whether a briefing of so many words can be read in the time, with half a minute to spare.
pub open spec fn is_readable(n: nat, budget_min: u32) -> bool {
    n <= WORDS_PER_MIN * budget_min + WORDS_PER_MIN / 2
}

/// Which of the checks a briefing passes.
#[derive(Clone, Copy, Debug, PartialEq, Eq, Structural)]
pub struct Checks {
    pub reading_time: bool,
    pub has_items: bool,
    pub tldr_present: bool,
    pub source_diversity: bool,
    pub counterpoint_present: bool,
    pub wildcard_present: bool,
}

/// The checks that a briefing passes.
pub open spec fn checks_of(b: BriefingView, budget_min: u32) -> Checks {
    let items = shown_items(b.sections);
    Checks {
        reading_time: is_readable(briefing_words(b), budget_min),
        has_items: items.len() > 0,
        tldr_present: b.tldr.len() > 0,
        source_diversity: is_diverse(items),
        counterpoint_present: has_section(b.sections, "counterpoint"@),
        wildcard_present: has_section(b.sections, "wildcard"@),
    }
}

/// One for what holds.
pub open spec fn one_if(b: bool) -> nat {
    if b {
        1
    } else {
        0
    }
}

/// How many of the checks are passed.
pub open spec fn passed(c: Checks) -> nat {
    one_if(c.reading_time) + one_if(c.has_items) + one_if(c.tldr_present) + one_if(c.source_diversity) + one_if(
        c.counterpoint_present,
    ) + one_if(c.wildcard_present)
}

/// The note on a check that failed; none where it was passed.
pub open spec fn note_unless(ok: bool, label: Seq<char>) -> Seq<Seq<char>> {
    if ok {
        seq![]
    } else {
        seq!["struct:fail:"@ + label]
    }
}

/// The notes on the checks that failed.
pub open spec fn check_notes(c: Checks) -> Seq<Seq<char>> {
    note_unless(c.reading_time, "reading_time"@) + note_unless(c.has_items, "has_items"@) + note_unless(
        c.tldr_present,
        "tldr_present"@,
    ) + note_unless(c.source_diversity, "source_diversity"@) + note_unless(
        c.counterpoint_present,
        "counterpoint_present"@,
    ) + note_unless(c.wildcard_present, "wildcard_present"@)
}

/// The double nearest to `n` sixths, by its place.
pub open spec fn sixths(n: nat) -> i64 {
    if n == 0 {
        0
    } else if n == 1 {
        0x3fc5_5555_5555_5555
    } else if n == 2 {
        0x3fd5_5555_5555_5555
    } else if n == 3 {
        0x3fe0_0000_0000_0000
    } else if n == 4 {
        0x3fe5_5555_5555_5555
    } else if n == 5 {
        0x3fea_aaaa_aaaa_aaab
    } else {
        ONE
    }
}

/// Whether one of the sections has the given identifier.
pub fn section_present(b: &Briefing, id: &str) -> (r: bool)
    ensures
        r == has_section(b@.sections, id@),
{
    let mut i: usize = 0;
    while i < b.sections.len()
        invariant
            i <= b.sections@.len(),
            forall|k: int| 0 <= k < i ==> (#[trigger] b@.sections[k]).id != id@,
        decreases b.sections.len() - i,
    {
        if same(&b.sections[i].id, id) {
            assert(b@.sections[i as int].id == id@);
            return true;
        }
        i = i + 1;
    }
    false
}

/// Counts the items of a source.
fn count_shown(items: &Vec<&ContentItem>, source: &str) -> (r: usize)
    ensures
        r == count_from(views(items@), source@),
{
    let ghost all = views(items@);
    let mut n: usize = 0;
    let mut i: usize = 0;
    while i < items.len()
        invariant
            i <= items@.len(),
            n <= i,
            all == views(items@),
            n == count_from(all.take(i as int), source@),
        decreases items.len() - i,
    {
        proof {
            assert(all.take(i + 1).drop_last() =~= all.take(i as int));
            assert(all.take(i + 1).last() == items@[i as int]@);
        }
        if same(&items[i].source_id, source) {
            n = n + 1;
        }
        i = i + 1;
    }
    assert(all.take(i as int) =~= all);
    n
}

/// Decides whether the sources of the items are diverse.
fn diverse(items: &Vec<&ContentItem>) -> (r: bool)
    ensures
        r == is_diverse(views(items@)),
{
    if items.len() < 3 {
        return true;
    }
    let ghost all = views(items@);
    let mut i: usize = 0;
    while i < items.len()
        invariant
            i <= items@.len(),
            items@.len() >= 3,
            all == views(items@),
            forall|k: int|
                0 <= k < i ==> 5 * count_from(all, (#[trigger] all[k]).source_id) <= 3 * all.len(),
        decreases items.len() - i,
    {
        let n: usize = count_shown(items, &items[i].source_id);
        if 5 * (n as u128) > 3 * (items.len() as u128) {
            assert(all[i as int].source_id == items@[i as int]@.source_id);
            assert(!is_diverse(all));
            return false;
        }
        i = i + 1;
    }
    true
}

/// Checks a briefing.
pub fn run_checks(b: &Briefing, budget_min: u32) -> (r: Checks)
    ensures
        r == checks_of(b@, budget_min),
{
    let shown = list_items(b);
    let n: u64 = word_count(b);
    Checks {
        reading_time: n <= WORDS_PER_MIN * budget_min as u64 + WORDS_PER_MIN / 2,
        has_items: shown.len() > 0,
        tldr_present: b.tldr.len() > 0,
        source_diversity: diverse(&shown),
        counterpoint_present: section_present(b, "counterpoint"),
        wildcard_present: section_present(b, "wildcard"),
    }
}

/// Notes a check that failed.
fn note(notes: &mut Vec<String>, ok: bool, label: &str)
    ensures
        views(final(notes)@) == views(old(notes)@) + note_unless(ok, label@),
{
    let ghost before = views(notes@);
    if !ok {
        let mut text = String::new();
        text.append("struct:fail:");
        text.append(label);
        let ghost said = text@;
        let ghost prev = notes@;
        notes.push(text);
        assert(views(notes@) =~= views(prev).push(said));
        assert(said =~= "struct:fail:"@ + label@);
        assert(views(notes@) =~= before + note_unless(ok, label@));
    } else {
        assert(views(notes@) =~= before + note_unless(ok, label@));
    }
}

/// The structure of a briefing: the share of the checks that it passes, and a
/// note on each that it fails.
pub fn structure_score(b: &Briefing, budget_min: u32) -> (r: (Score, Vec<String>))
    ensures
        r.0.place == sixths(passed(checks_of(b@, budget_min))),
        views(r.1@) == check_notes(checks_of(b@, budget_min)),
{
    let c = run_checks(b, budget_min);
    let mut notes: Vec<String> = Vec::new();
    assert(views(notes@) =~= seq![]);
    note(&mut notes, c.reading_time, "reading_time");
    note(&mut notes, c.has_items, "has_items");
    note(&mut notes, c.tldr_present, "tldr_present");
    note(&mut notes, c.source_diversity, "source_diversity");
    note(&mut notes, c.counterpoint_present, "counterpoint_present");
    note(&mut notes, c.wildcard_present, "wildcard_present");
    assert(views(notes@) =~= check_notes(c));
    assert(notes@.len() == views(notes@).len() == 6 - passed(c));
    let place: i64 = match notes.len() {
        0 => ONE,
        1 => 0x3fea_aaaa_aaaa_aaab,
        2 => 0x3fe5_5555_5555_5555,
        3 => 0x3fe0_0000_0000_0000,
        4 => 0x3fd5_5555_5555_5555,
        5 => 0x3fc5_5555_5555_5555,
        _ => 0,
    };
    (Score { place }, notes)
}

/// A briefing has full marks for its structure exactly where it passes all
/// checks, and then nothing is noted.
pub proof fn full_marks_need_all_checks(b: BriefingView, budget_min: u32)
    ensures
        sixths(passed(checks_of(b, budget_min))) == ONE <==> {
            let c = checks_of(b, budget_min);
            c.reading_time && c.has_items && c.tldr_present && c.source_diversity && c.counterpoint_present
                && c.wildcard_present
        },
        sixths(passed(checks_of(b, budget_min))) == ONE <==> check_notes(checks_of(b, budget_min)).len() == 0,
{
}

// ---------------------------------------------------------------------------
// The judge
// ---------------------------------------------------------------------------

/// Some texts as points of a list.
pub open spec fn point_lines(list: Seq<Seq<char>>) -> Seq<char>
    decreases list.len(),
{
    if list.len() == 0 {
        seq![]
    } else {
        point_lines(list.drop_last()) + "- "@ + list.last() + "\n"@
    }
}

/// Some items as points of a list, with their summaries.
pub open spec fn judged_lines(items: Seq<ItemView>) -> Seq<char>
    decreases items.len(),
{
    if items.len() == 0 {
        seq![]
    } else {
        judged_lines(items.drop_last()) + "- "@ + items.last().title + (match items.last().summary {
            Some(s) => ": "@ + s,
            None => seq![],
        }) + "\n"@
    }
}

/// The sections as the judge sees them.
pub open spec fn judged_sections(sections: Seq<SectionView>) -> Seq<char>
    decreases sections.len(),
{
    if sections.len() == 0 {
        seq![]
    } else {
        judged_sections(sections.drop_last()) + "\n## "@ + sections.last().title + "\n"@ + judged_lines(
            sections.last().items,
        )
    }
}

/// A briefing as the judge sees it.
pub open spec fn judged_text(b: BriefingView) -> Seq<char> {
    (if b.tldr.len() > 0 {
        "TL;DR:\n"@ + point_lines(b.tldr)
    } else {
        seq![]
    }) + judged_sections(b.sections)
}

/// Writes some texts as points of a list.
pub fn push_points(out: &mut String, list: &Vec<String>)
    ensures
        final(out)@ == old(out)@ + point_lines(views(list@)),
{
    let ghost before = out@;
    let ghost all = views(list@);
    let mut i: usize = 0;
    assert(before + point_lines(all.take(0)) =~= before);
    while i < list.len()
        invariant
            i <= list@.len(),
            all == views(list@),
            out@ == before + point_lines(all.take(i as int)),
        decreases list.len() - i,
    {
        out.append("- ");
        out.append(&list[i]);
        out.append("\n");
        proof {
            assert(all.take(i + 1).drop_last() =~= all.take(i as int));
            assert(all.take(i + 1).last() == list@[i as int]@);
            assert(out@ =~= before + point_lines(all.take(i + 1)));
        }
        i = i + 1;
    }
    assert(all.take(i as int) =~= all);
}

/// Writes some items as points of a list.
fn push_judged_items(out: &mut String, items: &Vec<ContentItem>)
    ensures
        final(out)@ == old(out)@ + judged_lines(views(items@)),
{
    let ghost before = out@;
    let ghost all = views(items@);
    let mut i: usize = 0;
    assert(before + judged_lines(all.take(0)) =~= before);
    while i < items.len()
        invariant
            i <= items@.len(),
            all == views(items@),
            out@ == before + judged_lines(all.take(i as int)),
        decreases items.len() - i,
    {
        out.append("- ");
        out.append(&items[i].title);
        match &items[i].summary {
            Some(s) => {
                out.append(": ");
                out.append(s);
            },
            None => {},
        }
        out.append("\n");
        proof {
            assert(all.take(i + 1).drop_last() =~= all.take(i as int));
            assert(all.take(i + 1).last() == items@[i as int]@);
            assert(out@ =~= before + judged_lines(all.take(i + 1)));
        }
        i = i + 1;
    }
    assert(all.take(i as int) =~= all);
}

/// Writes a briefing as the judge sees it.
pub fn brief_to_text(b: &Briefing) -> (r: String)
    ensures
        r@ == judged_text(b@),
{
    let mut out = String::new();
    if b.tldr.len() > 0 {
        out.append("TL;DR:\n");
        push_points(&mut out, &b.tldr);
    }
    let ghost head = out@;
    let ghost all = b@.sections;
    let mut i: usize = 0;
    assert(head + judged_sections(all.take(0)) =~= head);
    while i < b.sections.len()
        invariant
            i <= b.sections@.len(),
            all == views(b.sections@),
            out@ == head + judged_sections(all.take(i as int)),
        decreases b.sections.len() - i,
    {
        out.append("\n## ");
        out.append(&b.sections[i].title);
        out.append("\n");
        push_judged_items(&mut out, &b.sections[i].items);
        proof {
            assert(all.take(i + 1).drop_last() =~= all.take(i as int));
            assert(all.take(i + 1).last() == b.sections@[i as int]@);
            assert(out@ =~= head + judged_sections(all.take(i + 1)));
        }
        i = i + 1;
    }
    assert(all.take(i as int) =~= all);
    assert(out@ =~= judged_text(b@));
    out
}

/// What the judge is asked.
pub open spec fn judge_request_for(b: BriefingView) -> CompletionView {
    CompletionView {
        system: Some(JUDGE_SYSTEM@),
        temperature: TEMPERATURE_2,
        ..plain_request(
            RUBRIC@ + "\n\nBRIEFING:\n"@ + judged_text(b)
                + "\n\nAntworte NUR mit JSON der Form {\"relevance\":0.0,\"novelty\":0.0,\"diversity\":0.0,\"anti_bubble\":0.0,\"concision\":0.0,\"actionability\":0.0,\"overall\":0.0,\"comment\":\"kurz\"}."@,
        )
    }
}

/// The request to the judge.
pub fn judge_request(b: &Briefing) -> (r: Completion)
    ensures
        r@ == judge_request_for(b@),
{
    let mut prompt = String::new();
    prompt.append(RUBRIC);
    prompt.append("\n\nBRIEFING:\n");
    prompt.append(&brief_to_text(b));
    prompt.append(
        "\n\nAntworte NUR mit JSON der Form {\"relevance\":0.0,\"novelty\":0.0,\"diversity\":0.0,\"anti_bubble\":0.0,\"concision\":0.0,\"actionability\":0.0,\"overall\":0.0,\"comment\":\"kurz\"}.",
    );
    assert(prompt@ =~= judge_request_for(b@).prompt);
    Completion::new(prompt).with_system(JUDGE_SYSTEM).temperature(TEMPERATURE_2)
}

/// A mark between 0 and 1.
pub open spec fn mark(s: Score) -> Score {
    if s.place < 0 {
        Score { place: 0 }
    } else if s.place > ONE {
        Score { place: ONE }
    } else {
        s
    }
}

/// Brings a mark between 0 and 1.
pub fn clamp_mark(s: Score) -> (r: Score)
    ensures
        r == mark(s),
        0 <= r.place <= ONE,
        0 <= s.place <= ONE ==> r == s,
{
    if s.place < 0 {
        Score { place: 0 }
    } else if s.place > ONE {
        Score { place: ONE }
    } else {
        s
    }
}

/// What the judge said.
#[derive(Debug)]
pub enum JudgeReply {
    Judged { overall: Score, comment: String },
    Failed { error: String },
}

/// The judge's mark; that of the readers' behaviour where the judge failed.
pub open spec fn judge_mark(reply: JudgeReply, behavior: Score) -> Score {
    match reply {
        JudgeReply::Judged { overall, comment } => mark(overall),
        JudgeReply::Failed { error } => behavior,
    }
}

/// The note on the judge.
pub open spec fn judge_note(reply: JudgeReply) -> Seq<char> {
    match reply {
        JudgeReply::Judged { overall, comment } => "judge: "@ + comment@,
        JudgeReply::Failed { error } => "judge:fehlgeschlagen ("@ + error@ + ") → Fallback auf Verhaltens-Score"@,
    }
}

/// The marks of a briefing before they are weighed.
#[derive(Debug)]
pub struct Marks {
    pub behavior: Score,
    pub judge: Score,
    pub structure: Score,
    pub notes: Vec<String>,
}

/// Marks a briefing, given the mark of the readers' behaviour and the judge's
/// reply. The three marks are weighed outside.
pub fn evaluate(briefing: &Briefing, behavior: Score, reading_time_budget_min: u32, reply: JudgeReply) -> (r: Marks)
    ensures
        r.behavior == behavior,
        r.judge == judge_mark(reply, behavior),
        r.structure.place == sixths(passed(checks_of(briefing@, reading_time_budget_min))),
        views(r.notes@) == check_notes(checks_of(briefing@, reading_time_budget_min)).push(judge_note(reply)),
{
    let (structure, mut notes) = structure_score(briefing, reading_time_budget_min);
    let ghost before = notes@;
    let mut text = String::new();
    let judge: Score = match &reply {
        JudgeReply::Judged { overall, comment } => {
            text.append("judge: ");
            text.append(comment);
            clamp_mark(*overall)
        },
        JudgeReply::Failed { error } => {
            text.append("judge:fehlgeschlagen (");
            text.append(error);
            text.append(") → Fallback auf Verhaltens-Score");
            behavior
        },
    };
    let ghost said = text@;
    assert(said =~= judge_note(reply));
    notes.push(text);
    assert(views(notes@) =~= views(before).push(said));
    Marks { behavior, judge, structure, notes }
}

impl Marks {
    /// The assessment with the given total.
    pub fn with_total(self, total: Score) -> (r: EvalResult)
        ensures
            r@ == (EvalView {
                behavior: self.behavior,
                judge: self.judge,
                structure: self.structure,
                total,
                notes: views(self.notes@),
            }),
    {
        EvalResult {
            behavior: self.behavior,
            judge: self.judge,
            structure: self.structure,
            total,
            notes: self.notes,
        }
    }
}

/// The name of the configuration under which something was made: `default`
/// where none was learned yet.
pub fn config_name(active: Option<String>) -> (r: String)
    ensures
        r@ == match active {
            Some(v) => v@,
            None => "default"@,
        },
{
    match active {
        Some(v) => v,
        None => "default".to_string(),
    }
}

/// The row of an assessment.
pub fn eval_row(date: &str, config_version: &str, res: &EvalResult) -> (r: EvalRow)
    ensures
        r.date@ == date@,
        r.config_version@ == config_version@,
        r.rubric_version@ == RUBRIC_VERSION@,
        r.behavior == res@.behavior,
        r.judge == res@.judge,
        r.structure == res@.structure,
        r.total == res@.total,
        views(r.notes@) == res@.notes,
{
    EvalRow {
        date: date.to_string(),
        config_version: config_version.to_string(),
        rubric_version: RUBRIC_VERSION.to_string(),
        behavior: res.behavior,
        judge: res.judge,
        structure: res.structure,
        total: res.total,
        notes: clone_texts(&res.notes),
    }
}

// ---------------------------------------------------------------------------
// What the checks are for
// ---------------------------------------------------------------------------

/// Sources are diverse exactly where none of them, whichever it is and wherever its
/// items stand, has more than three fifths of the items; fewer than three items are
/// too few to tell.
pub proof fn no_source_has_more_than_three_fifths(b: BriefingView, budget_min: u32)
    ensures
        ({
            let items = shown_items(b.sections);
            checks_of(b, budget_min).source_diversity <==> (items.len() < 3 || forall|source: Seq<char>|
                5 * (#[trigger] of_source(items, source)).len() <= 3 * items.len())
        }),
{
    let items = shown_items(b.sections);
    if items.len() >= 3 {
        if is_diverse(items) {
            assert forall|source: Seq<char>| 5 * (#[trigger] of_source(items, source)).len() <= 3 * items.len() by {
                items_of_a_source_are_counted(items, source);
                if exists|i: int| 0 <= i < items.len() && (#[trigger] items[i]).source_id == source {
                    let i = choose|i: int| 0 <= i < items.len() && (#[trigger] items[i]).source_id == source;
                    assert(5 * count_from(items, items[i].source_id) <= 3 * items.len());
                }
            }
        } else {
            let i = choose|i: int|
                0 <= i < items.len() && 5 * count_from(items, (#[trigger] items[i]).source_id) > 3 * items.len();
            let source = items[i].source_id;
            items_of_a_source_are_counted(items, source);
            assert(5 * of_source(items, source).len() > 3 * items.len());
        }
    }
}

/// The diversity of the sources does not depend on the order of the items, nor on
/// the sections that they stand in.
pub proof fn diversity_is_of_the_items(a: BriefingView, b: BriefingView, budget_min: u32)
    requires
        shown_items(a.sections).to_multiset() == shown_items(b.sections).to_multiset(),
    ensures
        checks_of(a, budget_min).source_diversity == checks_of(b, budget_min).source_diversity,
{
    let x = shown_items(a.sections);
    let y = shown_items(b.sections);
    broadcast use vstd::seq_lib::group_to_multiset_ensures;

    assert(x.to_multiset().len() == x.len() && y.to_multiset().len() == y.len());
    assert forall|source: Seq<char>| #[trigger] count_from(x, source) == count_from(y, source) by {
        lemma_count_in_multiset(x, source);
        lemma_count_in_multiset(y, source);
    }
    lemma_diverse_from(x, y);
    lemma_diverse_from(y, x);
}

proof fn lemma_diverse_from(x: Seq<ItemView>, y: Seq<ItemView>)
    requires
        x.to_multiset() == y.to_multiset(),
        x.len() == y.len(),
        forall|source: Seq<char>| #[trigger] count_from(x, source) == count_from(y, source),
    ensures
        is_diverse(x) ==> is_diverse(y),
{
    broadcast use vstd::seq_lib::group_to_multiset_ensures;

    if is_diverse(x) && x.len() >= 3 {
        assert forall|i: int| 0 <= i < y.len() implies 5 * count_from(y, (#[trigger] y[i]).source_id) <= 3 * y.len() by {
            assert(y.contains(y[i]));
            assert(y.to_multiset().count(y[i]) > 0);
            assert(x.contains(y[i]));
            let k = choose|k: int| 0 <= k < x.len() && x[k] == y[i];
            assert(5 * count_from(x, x[k].source_id) <= 3 * x.len());
        }
    }
}

proof fn lemma_count_in_multiset(items: Seq<ItemView>, source: Seq<char>)
    ensures
        count_from(items, source) == items.to_multiset().filter(|it: ItemView| it.source_id == source).len(),
    decreases items.len(),
{
    broadcast use vstd::seq_lib::group_to_multiset_ensures;
    broadcast use vstd::multiset::group_multiset_axioms;

    let of = |it: ItemView| it.source_id == source;
    if items.len() == 0 {
        assert(items.to_multiset().filter(of) =~= vstd::multiset::Multiset::empty());
    } else {
        let before = items.drop_last();
        let last = items.last();
        lemma_count_in_multiset(before, source);
        assert(items =~= before.push(last));
        assert(items.to_multiset() =~= before.to_multiset().insert(last));
        if of(last) {
            assert(items.to_multiset().filter(of) =~= before.to_multiset().filter(of).insert(last));
        } else {
            assert(items.to_multiset().filter(of) =~= before.to_multiset().filter(of));
        }
    }
}

/// What the other checks ask: two hundred words a minute and a hundred more at most;
/// at least one item, at least one of the things of the day, a section for the
/// counterpoint and one for the wildcard, wherever they stand.
pub proof fn checks_ask_for_their_parts(b: BriefingView, budget_min: u32)
    ensures
        checks_of(b, budget_min).reading_time <==> briefing_words(b) <= 200 * budget_min + 100,
        checks_of(b, budget_min).has_items <==> exists|i: int|
            0 <= i < b.sections.len() && (#[trigger] b.sections[i]).items.len() > 0,
        checks_of(b, budget_min).tldr_present <==> b.tldr.len() > 0,
        checks_of(b, budget_min).counterpoint_present <==> exists|i: int|
            0 <= i < b.sections.len() && (#[trigger] b.sections[i]).id == "counterpoint"@,
        checks_of(b, budget_min).wildcard_present <==> exists|i: int|
            0 <= i < b.sections.len() && (#[trigger] b.sections[i]).id == "wildcard"@,
{
    lemma_shows_something(b.sections);
}

proof fn lemma_shows_something(s: Seq<SectionView>)
    ensures
        shown_items(s).len() > 0 <==> exists|i: int| 0 <= i < s.len() && (#[trigger] s[i]).items.len() > 0,
    decreases s.len(),
{
    if s.len() > 0 {
        let before = s.drop_last();
        lemma_shows_something(before);
        if shown_items(before).len() > 0 {
            let i = choose|i: int| 0 <= i < before.len() && (#[trigger] before[i]).items.len() > 0;
            assert(s[i].items.len() > 0);
        } else if s.last().items.len() > 0 {
            assert(s[s.len() - 1].items.len() > 0);
        }
        if exists|i: int| 0 <= i < s.len() && (#[trigger] s[i]).items.len() > 0 {
            let i = choose|i: int| 0 <= i < s.len() && (#[trigger] s[i]).items.len() > 0;
            if i < before.len() {
                assert(before[i].items.len() > 0);
            }
        }
    }
}

/// The words of a briefing are those of its things of the day and those of the titles
/// and summaries that it shows.
pub proof fn words_add_up(a: Seq<Seq<char>>, b: Seq<Seq<char>>, x: Seq<ItemView>, y: Seq<ItemView>, it: ItemView, t: Seq<char>)
    ensures
        text_words(a + b) == text_words(a) + text_words(b),
        text_words(seq![t]) == words(t),
        items_words(x + y) == items_words(x) + items_words(y),
        items_words(seq![it]) == words(it.title) + (if it.summary is Some {
            words(it.summary->0)
        } else {
            0
        }),
    decreases b.len() + y.len(),
{
    assert(seq![t].drop_last() =~= Seq::<Seq<char>>::empty());
    assert(text_words(seq![t].drop_last()) == 0);
    assert(seq![it].drop_last() =~= Seq::<ItemView>::empty());
    assert(items_words(seq![it].drop_last()) == 0);
    if b.len() > 0 {
        words_add_up(a, b.drop_last(), x, seq![], it, t);
        assert((a + b).drop_last() =~= a + b.drop_last());
    } else {
        assert(a + b =~= a);
    }
    if y.len() > 0 {
        words_add_up(a, seq![], x, y.drop_last(), it, t);
        assert((x + y).drop_last() =~= x + y.drop_last());
    } else {
        assert(x + y =~= x);
    }
}

/// A note names each check that failed, and no other; there is a sixth less for each.
/// The marks rise with the checks that are passed, from nought to one.
pub proof fn every_failed_check_is_noted(c: Checks)
    ensures
        check_notes(c).contains("struct:fail:"@ + "reading_time"@) <==> !c.reading_time,
        check_notes(c).contains("struct:fail:"@ + "has_items"@) <==> !c.has_items,
        check_notes(c).contains("struct:fail:"@ + "tldr_present"@) <==> !c.tldr_present,
        check_notes(c).contains("struct:fail:"@ + "source_diversity"@) <==> !c.source_diversity,
        check_notes(c).contains("struct:fail:"@ + "counterpoint_present"@) <==> !c.counterpoint_present,
        check_notes(c).contains("struct:fail:"@ + "wildcard_present"@) <==> !c.wildcard_present,
        check_notes(c).len() + passed(c) == 6,
        passed(c) <= 6,
        sixths(passed(c)) == 0 <==> passed(c) == 0,
        forall|d: Checks| #[trigger] passed(d) < passed(c) ==> sixths(passed(d)) < sixths(passed(c)),
        forall|d: Checks| #[trigger] passed(d) == passed(c) ==> sixths(passed(d)) == sixths(passed(c)),
{
    lemma_labels_differ();
    let head = "struct:fail:"@;
    let labels = seq![
        "reading_time"@,
        "has_items"@,
        "tldr_present"@,
        "source_diversity"@,
        "counterpoint_present"@,
        "wildcard_present"@,
    ];
    let ok = seq![
        c.reading_time,
        c.has_items,
        c.tldr_present,
        c.source_diversity,
        c.counterpoint_present,
        c.wildcard_present,
    ];
    let n = check_notes(c);
    assert forall|i: int, j: int| 0 <= i < 6 && 0 <= j < 6 && i != j implies head + labels[i] != head + labels[j] by {
        assert((head + labels[i]).skip(head.len() as int) =~= labels[i]);
        assert((head + labels[j]).skip(head.len() as int) =~= labels[j]);
    }
    let p0 = note_unless(ok[0], labels[0]);
    let p1 = p0 + note_unless(ok[1], labels[1]);
    let p2 = p1 + note_unless(ok[2], labels[2]);
    let p3 = p2 + note_unless(ok[3], labels[3]);
    let p4 = p3 + note_unless(ok[4], labels[4]);
    assert(n == p4 + note_unless(ok[5], labels[5]));
    assert forall|t: Seq<char>| #[trigger] n.contains(t) <==> exists|i: int|
        0 <= i < 6 && !(#[trigger] ok[i]) && t == head + labels[i] by {
        lemma_noted(seq![], ok[0], labels[0], t);
        assert(Seq::<Seq<char>>::empty() + p0 =~= p0);
        lemma_noted(p0, ok[1], labels[1], t);
        lemma_noted(p1, ok[2], labels[2], t);
        lemma_noted(p2, ok[3], labels[3], t);
        lemma_noted(p3, ok[4], labels[4], t);
        lemma_noted(p4, ok[5], labels[5], t);
        if n.contains(t) {
            if !ok[0] && t == head + labels[0] {
            } else if !ok[1] && t == head + labels[1] {
            } else if !ok[2] && t == head + labels[2] {
            } else if !ok[3] && t == head + labels[3] {
            } else if !ok[4] && t == head + labels[4] {
            } else {
                assert(!ok[5] && t == head + labels[5]);
            }
        }
    }
    assert forall|i: int| 0 <= i < 6 implies (n.contains(head + #[trigger] labels[i]) <==> !ok[i]) by {
    }
    assert(n.contains(head + labels[0]) <==> !ok[0]);
    assert(n.contains(head + labels[1]) <==> !ok[1]);
    assert(n.contains(head + labels[2]) <==> !ok[2]);
    assert(n.contains(head + labels[3]) <==> !ok[3]);
    assert(n.contains(head + labels[4]) <==> !ok[4]);
    assert(n.contains(head + labels[5]) <==> !ok[5]);
}

proof fn lemma_noted(before: Seq<Seq<char>>, ok: bool, label: Seq<char>, t: Seq<char>)
    ensures
        (before + note_unless(ok, label)).contains(t) <==> before.contains(t) || (!ok && t == "struct:fail:"@ + label),
{
    let all = before + note_unless(ok, label);
    if before.contains(t) {
        let k = choose|k: int| 0 <= k < before.len() && before[k] == t;
        assert(all[k] == t);
    }
    if !ok {
        assert(all[before.len() as int] == "struct:fail:"@ + label);
    }
}

proof fn lemma_labels_differ()
    ensures
        "reading_time"@.len() == 12,
        "has_items"@.len() == 9,
        "tldr_present"@.len() == 12,
        "source_diversity"@.len() == 16,
        "counterpoint_present"@.len() == 20,
        "wildcard_present"@.len() == 16,
        "reading_time"@[0] == 'r',
        "tldr_present"@[0] == 't',
        "source_diversity"@[0] == 's',
        "wildcard_present"@[0] == 'w',
{
    reveal_strlit("reading_time");
    reveal_strlit("has_items");
    reveal_strlit("tldr_present");
    reveal_strlit("source_diversity");
    reveal_strlit("counterpoint_present");
    reveal_strlit("wildcard_present");
}

/// A mark between nought and one is kept, others are brought to the nearer end; a
/// better opinion never gives a worse mark. Where the judge fails, the readers'
/// behaviour stands in.
pub proof fn marks_keep_opinions(a: Score, b: Score, behavior: Score, reply: JudgeReply)
    ensures
        0 <= a.place <= ONE ==> mark(a) == a,
        a.place < 0 ==> mark(a).place == 0,
        a.place > ONE ==> mark(a).place == ONE,
        a.place <= b.place ==> mark(a).place <= mark(b).place,
        reply is Failed ==> judge_mark(reply, behavior) == behavior,
        reply is Judged && 0 <= reply->overall.place <= ONE ==> judge_mark(reply, behavior) == reply->overall,
{
}

/// The judge sees every item with its title and summary, section by section.
pub proof fn judge_sees_everything(
    x: Seq<ItemView>,
    y: Seq<ItemView>,
    it: ItemView,
    a: Seq<SectionView>,
    b: Seq<SectionView>,
    s: SectionView,
    p: Seq<Seq<char>>,
    q: Seq<Seq<char>>,
    t: Seq<char>,
)
    ensures
        judged_lines(x + y) == judged_lines(x) + judged_lines(y),
        judged_lines(seq![it]) == "- "@ + it.title + (if it.summary is Some {
            ": "@ + it.summary->0
        } else {
            seq![]
        }) + "\n"@,
        judged_sections(a + b) == judged_sections(a) + judged_sections(b),
        judged_sections(seq![s]) == "\n## "@ + s.title + "\n"@ + judged_lines(s.items),
        point_lines(p + q) == point_lines(p) + point_lines(q),
        point_lines(seq![t]) == "- "@ + t + "\n"@,
    decreases y.len() + b.len() + q.len(),
{
    assert(seq![it].drop_last() =~= Seq::<ItemView>::empty());
    assert(judged_lines(seq![it].drop_last()) =~= Seq::<char>::empty());
    assert(judged_lines(seq![it]) =~= "- "@ + it.title + (if it.summary is Some {
        ": "@ + it.summary->0
    } else {
        seq![]
    }) + "\n"@);
    assert(seq![s].drop_last() =~= Seq::<SectionView>::empty());
    assert(judged_sections(seq![s].drop_last()) =~= Seq::<char>::empty());
    assert(judged_sections(seq![s]) =~= "\n## "@ + s.title + "\n"@ + judged_lines(s.items));
    assert(seq![t].drop_last() =~= Seq::<Seq<char>>::empty());
    assert(point_lines(seq![t].drop_last()) =~= Seq::<char>::empty());
    assert(point_lines(seq![t]) =~= "- "@ + t + "\n"@);
    if y.len() > 0 {
        judge_sees_everything(x, y.drop_last(), it, a, seq![], s, p, seq![], t);
        assert((x + y).drop_last() =~= x + y.drop_last());
        assert(judged_lines(x + y) =~= judged_lines(x) + judged_lines(y));
    } else {
        assert(x + y =~= x);
        assert(judged_lines(x) + judged_lines(y) =~= judged_lines(x));
    }
    if b.len() > 0 {
        judge_sees_everything(x, seq![], it, a, b.drop_last(), s, p, seq![], t);
        assert((a + b).drop_last() =~= a + b.drop_last());
        assert(judged_sections(a + b) =~= judged_sections(a) + judged_sections(b));
    } else {
        assert(a + b =~= a);
        assert(judged_sections(a) + judged_sections(b) =~= judged_sections(a));
    }
    if q.len() > 0 {
        judge_sees_everything(x, seq![], it, a, seq![], s, p, q.drop_last(), t);
        assert((p + q).drop_last() =~= p + q.drop_last());
        assert(point_lines(p + q) =~= point_lines(p) + point_lines(q));
    } else {
        assert(p + q =~= p);
        assert(point_lines(p) + point_lines(q) =~= point_lines(p));
    }
}

/// Every check counts a sixth: the mark is the double nearest to the sixths.
pub proof fn each_check_counts_a_sixth(n: nat)
    requires
        n <= 6,
    ensures
        is_nearest(Score { place: sixths(n) }, n as int, 6),
{
    if n == 0 {
        assert(Score { place: sixths(0) }.units() == 0);
    } else if n == 1 {
        significand_shows_nearest(Score { place: sixths(1) }, 1, 2, 0x15555555555555, 1, 6);
    } else if n == 2 {
        significand_shows_nearest(Score { place: sixths(2) }, 2, 4, 0x15555555555555, 2, 6);
    } else if n == 3 {
        significand_shows_nearest(Score { place: sixths(3) }, 3, 8, 0x10000000000000, 3, 6);
    } else if n == 4 {
        significand_shows_nearest(Score { place: sixths(4) }, 3, 8, 0x15555555555555, 4, 6);
    } else if n == 5 {
        significand_shows_nearest(Score { place: sixths(5) }, 3, 8, 0x1aaaaaaaaaaaab, 5, 6);
    } else if n == 6 {
        significand_shows_nearest(Score { place: sixths(6) }, 4, 16, 0x10000000000000, 6, 6);
    }
}

/// More text is more words: another thing of the day adds its words, another section
/// those of the titles and summaries of its items.
pub proof fn more_text_has_more_words(b: BriefingView, t: Seq<char>, s: SectionView)
    ensures
        briefing_words((BriefingView { tldr: b.tldr.push(t), ..b })) == briefing_words(b) + words(t),
        briefing_words((BriefingView { sections: b.sections.push(s), ..b })) == briefing_words(b) + items_words(s.items),
        b.tldr.len() == 0 && b.sections.len() == 0 ==> briefing_words(b) == 0,
{
    assert(b.tldr.push(t).drop_last() =~= b.tldr);
    assert(b.sections.push(s).drop_last() =~= b.sections);
    if s.items.len() > 0 {
        words_add_up(seq![], seq![], shown_items(b.sections), s.items, s.items[0], t);
    } else {
        assert(shown_items(b.sections) + s.items =~= shown_items(b.sections));
    }
}

/// The judge gets the whole briefing: its things of the day and then its sections.
pub proof fn judge_gets_the_briefing(b: BriefingView, reply: JudgeReply)
    ensures
        b.tldr.len() == 0 ==> judged_text(b) == judged_sections(b.sections),
        b.tldr.len() > 0 ==> judged_text(b) == "TL;DR:\n"@ + point_lines(b.tldr) + judged_sections(b.sections),
        has_part(judge_request_for(b).prompt, judged_text(b)),
        reply is Judged ==> has_part(judge_note(reply), reply->comment@),
        reply is Failed ==> has_part(judge_note(reply), reply->error@),
{
    let text = judged_text(b);
    assert(b.tldr.len() == 0 ==> text =~= judged_sections(b.sections));
    let tail = "\n\nAntworte NUR mit JSON der Form {\"relevance\":0.0,\"novelty\":0.0,\"diversity\":0.0,\"anti_bubble\":0.0,\"concision\":0.0,\"actionability\":0.0,\"overall\":0.0,\"comment\":\"kurz\"}."@;
    part_stands_between(text, text, RUBRIC@ + "\n\nBRIEFING:\n"@, tail);
    match reply {
        JudgeReply::Judged { overall, comment } => {
            part_stands_between(text, comment@, "judge: "@, seq![]);
            assert("judge: "@ + comment@ + seq![] =~= judge_note(reply));
        },
        JudgeReply::Failed { error } => {
            part_stands_between(
                text,
                error@,
                "judge:fehlgeschlagen ("@,
                ") → Fallback auf Verhaltens-Score"@,
            );
        },
    }
}

} // verus!
