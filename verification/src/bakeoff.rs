//! Comparing models: the same day, different models, the same judge.
//!
//! For the synthesis only the three things of the day and the counterpoint are
//! made anew; the items and the wildcard stay. For the enrichment every summary is
//! judged against the text that it sums up.

use crate::briefing::{list_items, push_item, push_section, shown_items, Briefing, BriefingSection, BriefingView, ContentItem, ItemView, SectionView};
use crate::eval::{mark, EvalResult, EvalView};
use crate::llm::{plain_request, Completion, CompletionView, TEMPERATURE_2};
use crate::pipeline::{keys_of, score_keys};
use crate::scan::{has_part, part_stands_between};
use crate::score::{order_is_numeric, Score};
use crate::sorting::{arranged, comes_before, descending_order, is_descending};
use crate::synthesis::{
    counterpoint_in, counterpoint_item, three_points, tldr_bullets, COUNTERPOINT_ID, COUNTERPOINT_TITLE,
};
use crate::text::{clone_texts, join, joined, same, views};
use vstd::prelude::*;

verus! {

pub const ENRICH_JUDGE_SYSTEM: &'static str = "Du bist ein strenger Redaktions-Gutachter für Kurzzusammenfassungen. Antworte ausschließlich mit JSON.";

// ---------------------------------------------------------------------------
// A variant of a briefing
// ---------------------------------------------------------------------------

/// The sections without the counterpoint.
pub open spec fn without_counterpoint(sections: Seq<SectionView>) -> Seq<SectionView>
    decreases sections.len(),
{
    if sections.len() == 0 {
        seq![]
    } else {
        let before = without_counterpoint(sections.drop_last());
        if sections.last().id == COUNTERPOINT_ID@ {
            before
        } else {
            before.push(sections.last())
        }
    }
}

/// What a variant starts from: the same items, without what the synthesis wrote.
pub fn variant_base(base: &Briefing) -> (r: Briefing)
    ensures
        r@ == (BriefingView {
            date: base@.date,
            tldr: seq![],
            sections: without_counterpoint(base@.sections),
        }),
{
    let ghost all = base@.sections;
    let mut sections: Vec<BriefingSection> = Vec::new();
    let mut i: usize = 0;
    assert(views(sections@) =~= seq![]);
    while i < base.sections.len()
        invariant
            i <= base.sections@.len(),
            all == views(base.sections@),
            views(sections@) == without_counterpoint(all.take(i as int)),
        decreases base.sections.len() - i,
    {
        proof {
            assert(all.take(i + 1).drop_last() =~= all.take(i as int));
            assert(all.take(i + 1).last() == base.sections@[i as int]@);
        }
        if !same(&base.sections[i].id, COUNTERPOINT_ID) {
            push_section(&mut sections, base.sections[i].clone());
        }
        i = i + 1;
    }
    assert(all.take(i as int) =~= all);
    let tldr: Vec<String> = Vec::new();
    assert(views(tldr@) =~= seq![]);
    Briefing { date: base.date.clone(), tldr, sections }
}

/// A briefing with the three things of the day that a model wrote; unchanged
/// where the model failed.
pub open spec fn with_tldr(b: BriefingView, reply: Option<Seq<char>>) -> BriefingView {
    match reply {
        Some(r) => BriefingView { tldr: three_points(r), ..b },
        None => b,
    }
}

/// Sets the three things of the day.
pub fn set_tldr(b: &mut Briefing, reply: &Option<String>)
    ensures
        final(b)@ == with_tldr(old(b)@, crate::text::opt_text(*reply)),
{
    match reply {
        Some(r) => {
            b.tldr = tldr_bullets(r);
        },
        None => {},
    }
}

/// A briefing with the counterpoint that a model wrote in a section of its own;
/// unchanged where the model failed or wrote nothing.
pub open spec fn with_counterpoint(b: BriefingView, reply: Option<Seq<char>>) -> BriefingView {
    match reply {
        Some(r) => match counterpoint_in(r, b.date) {
            Some(item) => BriefingView {
                sections: b.sections.push(
                    SectionView { id: COUNTERPOINT_ID@, title: COUNTERPOINT_TITLE@, items: seq![item] },
                ),
                ..b
            },
            None => b,
        },
        None => b,
    }
}

/// Adds the counterpoint.
pub fn add_counterpoint(b: &mut Briefing, reply: &Option<String>)
    ensures
        final(b)@ == with_counterpoint(old(b)@, crate::text::opt_text(*reply)),
{
    match reply {
        Some(r) => {
            match counterpoint_item(r, &b.date) {
                Some(item) => {
                    let ghost put = item@;
                    let mut items: Vec<ContentItem> = Vec::new();
                    push_item(&mut items, item);
                    assert(views(items@) =~= seq![put]);
                    push_section(
                        &mut b.sections,
                        BriefingSection {
                            id: COUNTERPOINT_ID.to_string(),
                            title: COUNTERPOINT_TITLE.to_string(),
                            items,
                        },
                    );
                },
                None => {},
            }
        },
        None => {},
    }
}

/// How many sections have the given identifier.
pub open spec fn count_sections(sections: Seq<SectionView>, id: Seq<char>) -> nat
    decreases sections.len(),
{
    if sections.len() == 0 {
        0
    } else {
        count_sections(sections.drop_last(), id) + if sections.last().id == id {
            1nat
        } else {
            0nat
        }
    }
}

/// A variant has the counterpoint of its own model, if that wrote one, and no
/// other: the one of the briefing is replaced, not repeated.
pub proof fn variant_has_one_counterpoint(b: BriefingView, reply: Option<Seq<char>>)
    ensures
        count_sections(without_counterpoint(b.sections), COUNTERPOINT_ID@) == 0,
        count_sections(
            with_counterpoint(
                BriefingView { date: b.date, tldr: seq![], sections: without_counterpoint(b.sections) },
                reply,
            ).sections,
            COUNTERPOINT_ID@,
        ) == (if reply is Some && counterpoint_in(reply->0, b.date) is Some {
            1nat
        } else {
            0nat
        }),
{
    lemma_no_counterpoint(b.sections);
    let base = without_counterpoint(b.sections);
    let after = with_counterpoint(BriefingView { date: b.date, tldr: seq![], sections: base }, reply).sections;
    if reply is Some && counterpoint_in(reply->0, b.date) is Some {
        assert(after.drop_last() =~= base);
    }
}

proof fn lemma_no_counterpoint(sections: Seq<SectionView>)
    ensures
        count_sections(without_counterpoint(sections), COUNTERPOINT_ID@) == 0,
    decreases sections.len(),
{
    if sections.len() > 0 {
        lemma_no_counterpoint(sections.drop_last());
        let before = without_counterpoint(sections.drop_last());
        if sections.last().id != COUNTERPOINT_ID@ {
            assert(before.push(sections.last()).drop_last() =~= before);
        }
    }
}

// ---------------------------------------------------------------------------
// The ranking of the synthesis models
// ---------------------------------------------------------------------------

/// How a model did.
#[derive(Debug)]
pub struct BakeoffEntry {
    pub name: String,
    pub model_label: String,
    pub eval: EvalResult,
    pub elapsed_ms: u128,
}

/// What an entry is.
#[verifier::ext_equal]
pub struct BakeoffView {
    pub name: Seq<char>,
    pub model_label: Seq<char>,
    pub eval: EvalView,
    pub elapsed_ms: u128,
}

impl View for BakeoffEntry {
    type V = BakeoffView;

    open spec fn view(&self) -> BakeoffView {
        BakeoffView {
            name: self.name@,
            model_label: self.model_label@,
            eval: self.eval@,
            elapsed_ms: self.elapsed_ms,
        }
    }
}

impl Clone for BakeoffEntry {
    fn clone(&self) -> (r: Self)
        ensures
            r@ == self@,
    {
        BakeoffEntry {
            name: self.name.clone(),
            model_label: self.model_label.clone(),
            eval: self.eval.clone(),
            elapsed_ms: self.elapsed_ms,
        }
    }
}

/// The models of a comparison, the best first.
#[derive(Debug)]
pub struct BakeoffOutcome {
    pub date: String,
    pub entries: Vec<BakeoffEntry>,
}

/// The totals of some entries.
pub open spec fn totals(entries: Seq<BakeoffView>) -> Seq<Score> {
    Seq::new(entries.len(), |i: int| entries[i].eval.total)
}

/// Whether `r` holds the entries by falling total, those of equal total as they stood.
pub open spec fn is_bakeoff_ranking(entries: Seq<BakeoffView>, r: Seq<BakeoffView>) -> bool {
    exists|order: Seq<usize>| #[trigger] is_descending(order, score_keys(totals(entries))) && r == arranged(entries, order)
}

/// Ranks the models by their totals.
pub fn run(date: &str, entries: &Vec<BakeoffEntry>) -> (r: BakeoffOutcome)
    ensures
        r.date@ == date@,
        is_bakeoff_ranking(views(entries@), views(r.entries@)),
{
    let ghost all = views(entries@);
    let mut scores: Vec<Score> = Vec::new();
    let mut i: usize = 0;
    while i < entries.len()
        invariant
            i <= entries@.len(),
            all == views(entries@),
            scores@ == totals(all).take(i as int),
        decreases entries.len() - i,
    {
        scores.push(entries[i].eval.total);
        assert(totals(all).take(i + 1) =~= totals(all).take(i as int).push(totals(all)[i as int]));
        i = i + 1;
    }
    assert(scores@ =~= totals(all));
    let keys = keys_of(&scores);
    let order = descending_order(&keys);
    let mut out: Vec<BakeoffEntry> = Vec::new();
    let mut k: usize = 0;
    while k < order.len()
        invariant
            k <= order@.len(),
            all == views(entries@),
            is_descending(order@, score_keys(totals(all))),
            views(out@) == arranged(all, order@.take(k as int)),
        decreases order.len() - k,
    {
        let ghost prev = out@;
        out.push(entries[order[k]].clone());
        assert(views(out@) =~= views(prev).push(all[order@[k as int] as int]));
        assert(views(out@) =~= arranged(all, order@.take(k + 1)));
        k = k + 1;
    }
    assert(order@.take(k as int) =~= order@);
    BakeoffOutcome { date: date.to_string(), entries: out }
}

impl BakeoffOutcome {
    /// The best model, if any took part.
    pub fn winner(&self) -> (r: Option<&BakeoffEntry>)
        ensures
            match r {
                Some(e) => self.entries@.len() > 0 && *e == self.entries@[0],
                None => self.entries@.len() == 0,
            },
    {
        if self.entries.len() > 0 {
            Some(&self.entries[0])
        } else {
            None
        }
    }
}

/// The winner has the highest total, and the totals fall from entry to entry.
pub proof fn winner_is_best(entries: Seq<BakeoffView>, r: Seq<BakeoffView>, i: int, j: int)
    requires
        is_bakeoff_ranking(entries, r),
        0 <= i <= j < r.len(),
    ensures
        r[i].eval.total.place >= r[j].eval.total.place,
{
    let keys = score_keys(totals(entries));
    let order = choose|order: Seq<usize>| #[trigger] is_descending(order, keys) && r == arranged(entries, order);
    if i < j {
        assert(comes_before(keys, order[i] as int, order[j] as int));
    }
}

// ---------------------------------------------------------------------------
// The ranking of the enrichment models
// ---------------------------------------------------------------------------

/// An item without what a model found out about it.
pub open spec fn plain_item(it: ItemView) -> ItemView {
    ItemView { summary: None, topics: seq![], ..it }
}

/// The items with an address, without what a model found out about them.
pub open spec fn plain_items(items: Seq<ItemView>) -> Seq<ItemView>
    decreases items.len(),
{
    if items.len() == 0 {
        seq![]
    } else {
        let before = plain_items(items.drop_last());
        if items.last().url.len() == 0 {
            before
        } else {
            before.push(plain_item(items.last()))
        }
    }
}

/// What the models enrich: the real items of a briefing, not those that a model
/// wrote, and without any earlier enrichment.
pub fn enrich_inputs(base: &Briefing) -> (r: Vec<ContentItem>)
    ensures
        views(r@) == plain_items(shown_items(base@.sections)),
{
    let shown = list_items(base);
    let ghost all = views(shown@);
    let mut out: Vec<ContentItem> = Vec::new();
    let mut i: usize = 0;
    assert(views(out@) =~= seq![]);
    while i < shown.len()
        invariant
            i <= shown@.len(),
            all == views(shown@),
            views(out@) == plain_items(all.take(i as int)),
        decreases shown.len() - i,
    {
        proof {
            assert(all.take(i + 1).drop_last() =~= all.take(i as int));
            assert(all.take(i + 1).last() == shown@[i as int]@);
        }
        if !shown[i].url.as_str().is_empty() {
            let mut item = shown[i].clone();
            item.summary = None;
            item.topics = Vec::new();
            assert(views(item.topics@) =~= seq![]);
            assert(item@ =~= plain_item(all[i as int]));
            push_item(&mut out, item);
        }
        i = i + 1;
    }
    assert(all.take(i as int) =~= all);
    out
}

/// What the judge is asked about a summary.
pub open spec fn enrich_judge_for(it: ItemView, summary: Seq<char>) -> CompletionView {
    CompletionView {
        system: Some(ENRICH_JUDGE_SYSTEM@),
        temperature: TEMPERATURE_2,
        ..plain_request(
            "Quelle:\nTitel: "@ + it.title + "\nText: "@ + (match it.raw_summary {
                Some(s) => s,
                None => seq![],
            }) + "\n\nErzeugte Zusammenfassung: "@ + summary + "\nErzeugte Tags: "@ + joined(it.topics, ", "@)
                + "\n\nBewerte 0.0-1.0: faithfulness (sachlich treu, nichts erfunden), concision (genau ein knapper Satz), tags (treffende, konsistente Schlagworte). overall = Gesamteindruck. Antworte NUR mit JSON der Form {\"faithfulness\":0.0,\"concision\":0.0,\"tags\":0.0,\"overall\":0.0}."@,
        )
    }
}

/// The request to the judge about a summary.
pub fn enrich_judge(item: &ContentItem, summary: &str) -> (r: Completion)
    ensures
        r@ == enrich_judge_for(item@, summary@),
{
    let mut prompt = String::new();
    prompt.append("Quelle:\nTitel: ");
    prompt.append(&item.title);
    prompt.append("\nText: ");
    match &item.raw_summary {
        Some(s) => {
            prompt.append(s);
        },
        None => {},
    }
    prompt.append("\n\nErzeugte Zusammenfassung: ");
    prompt.append(summary);
    prompt.append("\nErzeugte Tags: ");
    prompt.append(&join(&item.topics, ", "));
    prompt.append(
        "\n\nBewerte 0.0-1.0: faithfulness (sachlich treu, nichts erfunden), concision (genau ein knapper Satz), tags (treffende, konsistente Schlagworte). overall = Gesamteindruck. Antworte NUR mit JSON der Form {\"faithfulness\":0.0,\"concision\":0.0,\"tags\":0.0,\"overall\":0.0}.",
    );
    assert(prompt@ =~= enrich_judge_for(item@, summary@).prompt);
    Completion::new(prompt).with_system(ENRICH_JUDGE_SYSTEM).temperature(TEMPERATURE_2)
}

/// The requests about the first `n` items, as far as they have a summary.
pub open spec fn judge_requests_for(items: Seq<ItemView>, n: int) -> Seq<CompletionView>
    decreases n,
{
    if n <= 0 {
        seq![]
    } else {
        let before = judge_requests_for(items, n - 1);
        match items[n - 1].summary {
            Some(s) => before.push(enrich_judge_for(items[n - 1], s)),
            None => before,
        }
    }
}

/// The requests to the judge about the first `max` items, as far as they have a summary.
pub fn enrich_judges(items: &Vec<ContentItem>, max: usize) -> (r: Vec<Completion>)
    ensures
        views(r@) == judge_requests_for(
            views(items@),
            if max < items@.len() {
                max as int
            } else {
                items@.len() as int
            },
        ),
{
    let n: usize = if max < items.len() { max } else { items.len() };
    let ghost all = views(items@);
    let mut out: Vec<Completion> = Vec::new();
    let mut i: usize = 0;
    assert(views(out@) =~= seq![]);
    while i < n
        invariant
            i <= n <= items@.len(),
            all == views(items@),
            views(out@) == judge_requests_for(all, i as int),
        decreases n - i,
    {
        match &items[i].summary {
            Some(s) => {
                let ghost prev = out@;
                let req = enrich_judge(&items[i], s);
                let ghost asked = req@;
                out.push(req);
                assert(views(out@) =~= views(prev).push(asked));
            },
            None => {},
        }
        i = i + 1;
    }
    out
}

/// The judge's marks for one summary.
#[derive(Clone, Copy, Debug, PartialEq, Eq, Structural)]
pub struct EnrichMarks {
    pub faithfulness: Score,
    pub concision: Score,
    pub tags: Score,
    pub overall: Score,
}

/// Brings the marks between 0 and 1.
pub fn clamp_marks(m: EnrichMarks) -> (r: EnrichMarks)
    ensures
        r == (EnrichMarks {
            faithfulness: mark(m.faithfulness),
            concision: mark(m.concision),
            tags: mark(m.tags),
            overall: mark(m.overall),
        }),
{
    EnrichMarks {
        faithfulness: crate::eval::clamp_mark(m.faithfulness),
        concision: crate::eval::clamp_mark(m.concision),
        tags: crate::eval::clamp_mark(m.tags),
        overall: crate::eval::clamp_mark(m.overall),
    }
}

/// How a model did: the means of its marks.
#[derive(Debug)]
pub struct EnrichEntry {
    pub name: String,
    pub model_label: String,
    /// How many summaries could be judged.
    pub items_scored: usize,
    pub faithfulness: Score,
    pub concision: Score,
    pub tags: Score,
    /// The mean of the overall marks.
    pub total: Score,
    pub elapsed_ms: u128,
}

/// What an entry is.
#[verifier::ext_equal]
pub struct EnrichView {
    pub name: Seq<char>,
    pub model_label: Seq<char>,
    pub items_scored: usize,
    pub faithfulness: Score,
    pub concision: Score,
    pub tags: Score,
    pub total: Score,
    pub elapsed_ms: u128,
}

impl View for EnrichEntry {
    type V = EnrichView;

    open spec fn view(&self) -> EnrichView {
        EnrichView {
            name: self.name@,
            model_label: self.model_label@,
            items_scored: self.items_scored,
            faithfulness: self.faithfulness,
            concision: self.concision,
            tags: self.tags,
            total: self.total,
            elapsed_ms: self.elapsed_ms,
        }
    }
}

impl Clone for EnrichEntry {
    fn clone(&self) -> (r: Self)
        ensures
            r@ == self@,
    {
        EnrichEntry {
            name: self.name.clone(),
            model_label: self.model_label.clone(),
            items_scored: self.items_scored,
            faithfulness: self.faithfulness,
            concision: self.concision,
            tags: self.tags,
            total: self.total,
            elapsed_ms: self.elapsed_ms,
        }
    }
}

/// The models of a comparison, the best first.
#[derive(Debug)]
pub struct EnrichOutcome {
    pub entries: Vec<EnrichEntry>,
}

/// The models of which at least one summary could be judged.
pub open spec fn scored(entries: Seq<EnrichView>) -> Seq<EnrichView>
    decreases entries.len(),
{
    if entries.len() == 0 {
        seq![]
    } else {
        let before = scored(entries.drop_last());
        if entries.last().items_scored == 0 {
            before
        } else {
            before.push(entries.last())
        }
    }
}

/// The totals of some entries.
pub open spec fn enrich_totals(entries: Seq<EnrichView>) -> Seq<Score> {
    Seq::new(entries.len(), |i: int| entries[i].total)
}

/// Whether `r` holds the models that could be judged by falling total, those of
/// equal total as they stood.
pub open spec fn is_enrich_ranking(entries: Seq<EnrichView>, r: Seq<EnrichView>) -> bool {
    exists|order: Seq<usize>| #[trigger]
        is_descending(order, score_keys(enrich_totals(scored(entries)))) && r == arranged(scored(entries), order)
}

/// Ranks the models by their totals. A model of which nothing could be judged
/// falls out: a failure is not a mark of 0.
pub fn run_enrich(entries: &Vec<EnrichEntry>) -> (r: EnrichOutcome)
    ensures
        is_enrich_ranking(views(entries@), views(r.entries@)),
{
    let ghost all = views(entries@);
    let mut kept: Vec<EnrichEntry> = Vec::new();
    let mut scores: Vec<Score> = Vec::new();
    let mut i: usize = 0;
    assert(views(kept@) =~= seq![]);
    assert(scores@ =~= enrich_totals(seq![]));
    while i < entries.len()
        invariant
            i <= entries@.len(),
            all == views(entries@),
            views(kept@) == scored(all.take(i as int)),
            scores@ == enrich_totals(scored(all.take(i as int))),
        decreases entries.len() - i,
    {
        proof {
            assert(all.take(i + 1).drop_last() =~= all.take(i as int));
            assert(all.take(i + 1).last() == entries@[i as int]@);
        }
        if entries[i].items_scored > 0 {
            let ghost prev = kept@;
            let ghost before = scored(all.take(i as int));
            kept.push(entries[i].clone());
            scores.push(entries[i].total);
            assert(views(kept@) =~= views(prev).push(all[i as int]));
            assert(enrich_totals(before.push(all[i as int])) =~= enrich_totals(before).push(all[i as int].total));
        }
        i = i + 1;
    }
    assert(all.take(i as int) =~= all);
    let ghost some = views(kept@);
    let keys = keys_of(&scores);
    let order = descending_order(&keys);
    let mut out: Vec<EnrichEntry> = Vec::new();
    let mut k: usize = 0;
    while k < order.len()
        invariant
            k <= order@.len(),
            some == views(kept@),
            is_descending(order@, score_keys(enrich_totals(some))),
            views(out@) == arranged(some, order@.take(k as int)),
        decreases order.len() - k,
    {
        let ghost prev = out@;
        out.push(kept[order[k]].clone());
        assert(views(out@) =~= views(prev).push(some[order@[k as int] as int]));
        assert(views(out@) =~= arranged(some, order@.take(k + 1)));
        k = k + 1;
    }
    assert(order@.take(k as int) =~= order@);
    EnrichOutcome { entries: out }
}

impl EnrichOutcome {
    /// The best model, if any could be judged.
    pub fn winner(&self) -> (r: Option<&EnrichEntry>)
        ensures
            match r {
                Some(e) => self.entries@.len() > 0 && *e == self.entries@[0],
                None => self.entries@.len() == 0,
            },
    {
        if self.entries.len() > 0 {
            Some(&self.entries[0])
        } else {
            None
        }
    }
}

/// The enrichment winner has the highest total, and nothing is ranked that
/// could not be judged.
pub proof fn enrich_winner_is_best(entries: Seq<EnrichView>, r: Seq<EnrichView>, i: int, j: int)
    requires
        is_enrich_ranking(entries, r),
        0 <= i <= j < r.len(),
    ensures
        r[i].total.place >= r[j].total.place,
        r[i].items_scored > 0,
{
    let some = scored(entries);
    let keys = score_keys(enrich_totals(some));
    let order = choose|order: Seq<usize>| #[trigger] is_descending(order, keys) && r == arranged(some, order);
    if i < j {
        assert(comes_before(keys, order[i] as int, order[j] as int));
    }
    lemma_scored(entries, order[i] as int);
}

proof fn lemma_scored(entries: Seq<EnrichView>, k: int)
    requires
        0 <= k < scored(entries).len(),
    ensures
        scored(entries)[k].items_scored > 0,
    decreases entries.len(),
{
    let before = scored(entries.drop_last());
    if k < before.len() {
        lemma_scored(entries.drop_last(), k);
    }
}

// ---------------------------------------------------------------------------
// The candidates and the history
// ---------------------------------------------------------------------------

/// The names of the models that are compared: the configured ones, with the one
/// in use in front where it is not among them.
pub fn bench_candidates(baseline: &str, configured: &Vec<String>) -> (r: Vec<String>)
    ensures
        views(r@).contains(baseline@),
        forall|i: int| 0 <= i < configured@.len() ==> views(r@).contains(#[trigger] views(configured@)[i]),
        r@.len() <= configured@.len() + 1,
        views(r@) == if views(configured@).contains(baseline@) {
            views(configured@)
        } else {
            seq![baseline@] + views(configured@)
        },
{
    let mut names = clone_texts(configured);
    if !crate::text::holds(&names, baseline) {
        let ghost before = names@;
        names.insert(0, baseline.to_string());
        assert(views(names@) =~= seq![baseline@] + views(before));
        assert(views(names@)[0] == baseline@);
    }
    proof {
        let d = names@.len() - configured@.len();
        assert forall|i: int| 0 <= i < configured@.len() implies views(names@).contains(
            #[trigger] views(configured@)[i],
        ) by {
            assert(views(names@)[i + d] == views(configured@)[i]);
        }
    }
    names
}

/// What marks the model in use in a list.
pub fn baseline_marker(name: &str, baseline: &str) -> (r: &'static str)
    ensures
        r@ == if name@ == baseline@ {
            " (baseline)"@
        } else {
            ""@
        },
{
    if same(name, baseline) {
        " (baseline)"
    } else {
        ""
    }
}

/// A mark with its name.
#[derive(Debug)]
pub struct NamedScore {
    pub name: String,
    pub score: Score,
}

/// A model in the history of the comparisons.
#[derive(Debug)]
pub struct BenchRunRow {
    pub date: String,
    pub tier: String,
    pub model: String,
    pub judge_mode: String,
    pub total: Score,
    pub scores: Vec<NamedScore>,
    pub items_scored: i64,
    pub elapsed_ms: i64,
    pub is_winner: bool,
}

/// Who judges: the subscription or a local model.
pub fn judge_mode(calibrate: bool) -> (r: &'static str)
    ensures
        r@ == if calibrate {
            "abo"@
        } else {
            "lokal"@
        },
{
    if calibrate {
        "abo"
    } else {
        "lokal"
    }
}

/// Whether a list of named marks holds these three.
pub open spec fn are_scores(
    s: Seq<NamedScore>,
    n0: Seq<char>,
    s0: Score,
    n1: Seq<char>,
    s1: Score,
    n2: Seq<char>,
    s2: Score,
) -> bool {
    &&& s.len() == 3
    &&& s[0].name@ == n0 && s[0].score == s0
    &&& s[1].name@ == n1 && s[1].score == s1
    &&& s[2].name@ == n2 && s[2].score == s2
}

/// Whether a row records an entry of the comparison of synthesis models.
pub open spec fn is_synth_row(row: BenchRunRow, e: BakeoffView, place: int, date: Seq<char>, calibrate: bool) -> bool {
    &&& row.date@ == date
    &&& row.tier@ == "synth"@
    &&& row.model@ == e.name
    &&& row.judge_mode@ == (if calibrate {
        "abo"@
    } else {
        "lokal"@
    })
    &&& row.total == e.eval.total
    &&& are_scores(
        row.scores@,
        "judge"@,
        e.eval.judge,
        "struct"@,
        e.eval.structure,
        "behavior"@,
        e.eval.behavior,
    )
    &&& row.items_scored == 0
    &&& row.elapsed_ms == e.elapsed_ms as i64
    &&& row.is_winner == (place == 0)
}

/// Three named marks.
fn three_scores(n0: &str, s0: Score, n1: &str, s1: Score, n2: &str, s2: Score) -> (r: Vec<NamedScore>)
    ensures
        are_scores(r@, n0@, s0, n1@, s1, n2@, s2),
{
    let mut out: Vec<NamedScore> = Vec::new();
    out.push(NamedScore { name: n0.to_string(), score: s0 });
    out.push(NamedScore { name: n1.to_string(), score: s1 });
    out.push(NamedScore { name: n2.to_string(), score: s2 });
    out
}

/// The rows for the history of a comparison of synthesis models.
pub fn synth_rows(outcome: &BakeoffOutcome, date: &str, calibrate: bool) -> (r: Vec<BenchRunRow>)
    ensures
        r@.len() == outcome.entries@.len(),
        forall|i: int|
            0 <= i < r@.len() ==> is_synth_row(#[trigger] r@[i], outcome.entries@[i]@, i, date@, calibrate),
{
    let mut out: Vec<BenchRunRow> = Vec::new();
    let mut i: usize = 0;
    while i < outcome.entries.len()
        invariant
            i <= outcome.entries@.len(),
            out@.len() == i,
            forall|k: int|
                0 <= k < i ==> is_synth_row(#[trigger] out@[k], outcome.entries@[k]@, k, date@, calibrate),
        decreases outcome.entries.len() - i,
    {
        let e = &outcome.entries[i];
        out.push(
            BenchRunRow {
                date: date.to_string(),
                tier: "synth".to_string(),
                model: e.name.clone(),
                judge_mode: judge_mode(calibrate).to_string(),
                total: e.eval.total,
                scores: three_scores(
                    "judge",
                    e.eval.judge,
                    "struct",
                    e.eval.structure,
                    "behavior",
                    e.eval.behavior,
                ),
                items_scored: 0,
                elapsed_ms: e.elapsed_ms as i64,
                is_winner: i == 0,
            },
        );
        i = i + 1;
    }
    out
}

/// Whether a row records an entry of the comparison of enrichment models.
pub open spec fn is_enrich_row(row: BenchRunRow, e: EnrichView, place: int, date: Seq<char>, calibrate: bool) -> bool {
    &&& row.date@ == date
    &&& row.tier@ == "enrich"@
    &&& row.model@ == e.name
    &&& row.judge_mode@ == (if calibrate {
        "abo"@
    } else {
        "lokal"@
    })
    &&& row.total == e.total
    &&& are_scores(row.scores@, "treue"@, e.faithfulness, "prägnanz"@, e.concision, "tags"@, e.tags)
    &&& row.items_scored == e.items_scored as i64
    &&& row.elapsed_ms == e.elapsed_ms as i64
    &&& row.is_winner == (place == 0)
}

/// The rows for the history of a comparison of enrichment models.
pub fn enrich_rows(outcome: &EnrichOutcome, date: &str, calibrate: bool) -> (r: Vec<BenchRunRow>)
    ensures
        r@.len() == outcome.entries@.len(),
        forall|i: int|
            0 <= i < r@.len() ==> is_enrich_row(#[trigger] r@[i], outcome.entries@[i]@, i, date@, calibrate),
{
    let mut out: Vec<BenchRunRow> = Vec::new();
    let mut i: usize = 0;
    while i < outcome.entries.len()
        invariant
            i <= outcome.entries@.len(),
            out@.len() == i,
            forall|k: int|
                0 <= k < i ==> is_enrich_row(#[trigger] out@[k], outcome.entries@[k]@, k, date@, calibrate),
        decreases outcome.entries.len() - i,
    {
        let e = &outcome.entries[i];
        out.push(
            BenchRunRow {
                date: date.to_string(),
                tier: "enrich".to_string(),
                model: e.name.clone(),
                judge_mode: judge_mode(calibrate).to_string(),
                total: e.total,
                scores: three_scores("treue", e.faithfulness, "prägnanz", e.concision, "tags", e.tags),
                items_scored: e.items_scored as i64,
                elapsed_ms: e.elapsed_ms as i64,
                is_winner: i == 0,
            },
        );
        i = i + 1;
    }
    out
}

// ---------------------------------------------------------------------------
// What a comparison shows
// ---------------------------------------------------------------------------

/// A variant keeps every section but the counterpoints, in order.
pub proof fn other_sections_stay(sections: Seq<SectionView>)
    ensures
        without_counterpoint(sections) == sections.filter(|s: SectionView| s.id != COUNTERPOINT_ID@),
    decreases sections.len(),
{
    reveal(Seq::filter);
    if sections.len() > 0 {
        other_sections_stay(sections.drop_last());
    }
}

/// The reply for the three things touches nothing but them, and the reply for the
/// counterpoint adds one section behind all others, or nothing.
pub proof fn replies_change_their_part(b: BriefingView, reply: Option<Seq<char>>)
    ensures
        with_tldr(b, reply).sections == b.sections,
        with_tldr(b, reply).date == b.date,
        reply is None ==> with_tldr(b, reply) == b && with_counterpoint(b, reply) == b,
        reply is Some ==> with_tldr(b, reply).tldr == three_points(reply->0),
        with_counterpoint(b, reply).tldr == b.tldr,
        with_counterpoint(b, reply).date == b.date,
        reply is Some && counterpoint_in(reply->0, b.date) is None ==> with_counterpoint(b, reply) == b,
        reply is Some && counterpoint_in(reply->0, b.date) is Some ==> {
            let after = with_counterpoint(b, reply).sections;
            &&& after.len() == b.sections.len() + 1
            &&& after.drop_last() == b.sections
            &&& after.last().id == "counterpoint"@
            &&& after.last().items == seq![counterpoint_in(reply->0, b.date)->0]
        },
{
    if reply is Some && counterpoint_in(reply->0, b.date) is Some {
        assert(with_counterpoint(b, reply).sections.drop_last() =~= b.sections);
    }
}

/// Every model that took part is ranked, once: by the number that its total denotes,
/// and as it was asked where two totals are equal.
pub proof fn every_model_is_ranked(entries: Seq<BakeoffView>, r: Seq<BakeoffView>) -> (places: Seq<int>)
    requires
        is_bakeoff_ranking(entries, r),
        entries.len() <= usize::MAX,
    ensures
        r.len() == entries.len() == places.len(),
        forall|i: int| 0 <= i < r.len() ==> 0 <= (#[trigger] places[i]) < entries.len() && r[i] == entries[places[i]],
        forall|k: int| 0 <= k < entries.len() ==> #[trigger] places.contains(k),
        forall|i: int, j: int|
            0 <= i < j < r.len() ==> (#[trigger] r[i]).eval.total.units() > (#[trigger] r[j]).eval.total.units() || (
            r[i].eval.total.units() == r[j].eval.total.units() && places[i] < places[j]),
{
    let keys = score_keys(totals(entries));
    let order = choose|order: Seq<usize>| #[trigger] is_descending(order, keys) && r == arranged(entries, order);
    let places = Seq::new(order.len(), |i: int| order[i] as int);
    assert forall|k: int| 0 <= k < entries.len() implies #[trigger] places.contains(k) by {
        assert(order.contains(k as usize));
        let i = choose|i: int| 0 <= i < order.len() && order[i] == k as usize;
        assert(places[i] == k);
    }
    assert forall|i: int, j: int| 0 <= i < j < r.len() implies (#[trigger] r[i]).eval.total.units() > (
    #[trigger] r[j]).eval.total.units() || (r[i].eval.total.units() == r[j].eval.total.units() && places[i]
        < places[j]) by {
        assert(comes_before(keys, order[i] as int, order[j] as int));
        order_is_numeric(r[i].eval.total, r[j].eval.total);
        order_is_numeric(r[j].eval.total, r[i].eval.total);
    }
    places
}

/// The models of which an item was judged are ranked, each once: by the number that
/// the total denotes, and as they were asked where two totals are equal.
pub proof fn every_judged_model_is_ranked(entries: Seq<EnrichView>, r: Seq<EnrichView>) -> (places: Seq<int>)
    requires
        is_enrich_ranking(entries, r),
        entries.len() <= usize::MAX,
    ensures
        ({
            let some = entries.filter(|e: EnrichView| e.items_scored > 0);
            &&& r.len() == some.len() == places.len()
            &&& forall|i: int| 0 <= i < r.len() ==> 0 <= (#[trigger] places[i]) < some.len() && r[i] == some[places[i]]
            &&& forall|k: int| 0 <= k < some.len() ==> #[trigger] places.contains(k)
        }),
        forall|i: int, j: int|
            0 <= i < j < r.len() ==> (#[trigger] r[i]).total.units() > (#[trigger] r[j]).total.units() || (
            r[i].total.units() == r[j].total.units() && places[i] < places[j]),
{
    let some = scored(entries);
    lemma_scored_entries(entries);
    let keys = score_keys(enrich_totals(some));
    let order = choose|order: Seq<usize>| #[trigger] is_descending(order, keys) && r == arranged(some, order);
    let places = Seq::new(order.len(), |i: int| order[i] as int);
    assert forall|k: int| 0 <= k < some.len() implies #[trigger] places.contains(k) by {
        assert(order.contains(k as usize));
        let i = choose|i: int| 0 <= i < order.len() && order[i] == k as usize;
        assert(places[i] == k);
    }
    assert forall|i: int, j: int| 0 <= i < j < r.len() implies (#[trigger] r[i]).total.units() > (
    #[trigger] r[j]).total.units() || (r[i].total.units() == r[j].total.units() && places[i] < places[j]) by {
        assert(comes_before(keys, order[i] as int, order[j] as int));
        order_is_numeric(r[i].total, r[j].total);
        order_is_numeric(r[j].total, r[i].total);
    }
    places
}

proof fn lemma_scored_entries(entries: Seq<EnrichView>)
    ensures
        scored(entries) == entries.filter(|e: EnrichView| e.items_scored > 0),
        scored(entries).len() <= entries.len(),
    decreases entries.len(),
{
    reveal(Seq::filter);
    if entries.len() > 0 {
        lemma_scored_entries(entries.drop_last());
    }
}

/// Every shown item with a link is enriched anew, in order, from what its feed says of
/// it alone.
pub proof fn items_with_links_are_compared(items: Seq<ItemView>)
    ensures
        plain_items(items) == items.filter(|it: ItemView| it.url.len() > 0).map_values(
            |it: ItemView| (ItemView { summary: None, topics: seq![], ..it }),
        ),
    decreases items.len(),
{
    reveal(Seq::filter);
    let f = |it: ItemView| (ItemView { summary: None, topics: seq![], ..it });
    if items.len() > 0 {
        let before = items.drop_last();
        items_with_links_are_compared(before);
        let kept = before.filter(|it: ItemView| it.url.len() > 0);
        if items.last().url.len() > 0 {
            assert(kept.push(items.last()).map_values(f) =~= kept.map_values(f).push(f(items.last())));
        }
    } else {
        assert(plain_items(items) =~= items.filter(|it: ItemView| it.url.len() > 0).map_values(f));
    }
}

/// The judge is asked about each of the first `n` items that has a summary, in order.
pub proof fn summaries_are_judged(items: Seq<ItemView>, n: int)
    requires
        0 <= n <= items.len(),
    ensures
        judge_requests_for(items, n) == items.take(n).filter(|it: ItemView| it.summary is Some).map_values(
            |it: ItemView| enrich_judge_for(it, it.summary->0),
        ),
    decreases n,
{
    reveal(Seq::filter);
    let f = |it: ItemView| enrich_judge_for(it, it.summary->0);
    if n > 0 {
        summaries_are_judged(items, n - 1);
        assert(items.take(n).drop_last() =~= items.take(n - 1));
        let kept = items.take(n - 1).filter(|it: ItemView| it.summary is Some);
        if items[n - 1].summary is Some {
            assert(kept.push(items[n - 1]).map_values(f) =~= kept.map_values(f).push(f(items[n - 1])));
        }
    } else {
        assert(judge_requests_for(items, n) =~= items.take(n).filter(|it: ItemView| it.summary is Some).map_values(f));
    }
}

/// The judge sees the text that is summed up, and what was made of it.
pub proof fn enrich_judge_sees_both(it: ItemView, summary: Seq<char>)
    ensures
        has_part(enrich_judge_for(it, summary).prompt, it.title),
        it.raw_summary is Some ==> has_part(enrich_judge_for(it, summary).prompt, it.raw_summary->0),
        has_part(enrich_judge_for(it, summary).prompt, summary),
        has_part(enrich_judge_for(it, summary).prompt, joined(it.topics, ", "@)),
{
    let p = enrich_judge_for(it, summary).prompt;
    let text = match it.raw_summary {
        Some(s) => s,
        None => seq![],
    };
    let a = "Quelle:\nTitel: "@;
    let b = "\nText: "@;
    let c = "\n\nErzeugte Zusammenfassung: "@;
    let d = "\nErzeugte Tags: "@;
    let tags = joined(it.topics, ", "@);
    let e = "\n\nBewerte 0.0-1.0: faithfulness (sachlich treu, nichts erfunden), concision (genau ein knapper Satz), tags (treffende, konsistente Schlagworte). overall = Gesamteindruck. Antworte NUR mit JSON der Form {\"faithfulness\":0.0,\"concision\":0.0,\"tags\":0.0,\"overall\":0.0}."@;
    part_stands_between(p, it.title, a, b + text + c + summary + d + tags + e);
    assert(p =~= a + it.title + (b + text + c + summary + d + tags + e));
    part_stands_between(p, text, a + it.title + b, c + summary + d + tags + e);
    assert(p =~= a + it.title + b + text + (c + summary + d + tags + e));
    part_stands_between(p, summary, a + it.title + b + text + c, d + tags + e);
    assert(p =~= a + it.title + b + text + c + summary + (d + tags + e));
    part_stands_between(p, tags, a + it.title + b + text + c + summary + d, e);
}

/// The history has one winner for each comparison: the model that stands first, with
/// the total that it reached.
pub proof fn first_model_is_the_winner(
    row: BenchRunRow,
    e: BakeoffView,
    other: BenchRunRow,
    f: EnrichView,
    place: int,
    date: Seq<char>,
    calibrate: bool,
)
    requires
        is_synth_row(row, e, place, date, calibrate),
        is_enrich_row(other, f, place, date, calibrate),
    ensures
        row.is_winner <==> place == 0,
        other.is_winner <==> place == 0,
        row.model@ == e.name && row.total == e.eval.total && row.date@ == date,
        other.model@ == f.name && other.total == f.total && other.date@ == date,
        row.tier@ != other.tier@,
        row.scores@.len() == other.scores@.len() == 3,
        row.scores@[0].score == e.eval.judge && row.scores@[1].score == e.eval.structure && row.scores@[2].score
            == e.eval.behavior,
        other.scores@[0].score == f.faithfulness && other.scores@[1].score == f.concision && other.scores@[2].score
            == f.tags,
        row.judge_mode@ == other.judge_mode@,
        calibrate ==> row.judge_mode@ == "abo"@,
        !calibrate ==> row.judge_mode@ == "lokal"@,
        f.items_scored <= i64::MAX ==> other.items_scored == f.items_scored,
        e.elapsed_ms <= i64::MAX ==> row.elapsed_ms == e.elapsed_ms,
        f.elapsed_ms <= i64::MAX ==> other.elapsed_ms == f.elapsed_ms,
{
    reveal_strlit("synth");
    reveal_strlit("enrich");
    assert("synth"@.len() != "enrich"@.len());
}

} // verus!
