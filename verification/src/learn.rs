//! Learning the weights: a candidate is sampled, checked by the safety gate and
//! against the feedback, and only then adopted.
//!
//! The samples, sums and quotients are made outside; here stands what follows
//! from them.

use crate::config::{
    same_entries, same_entries_weigh_the_same, tables_are_canonical, Config, Weight, WeightTable, NEUTRAL_WEIGHT,
};
use crate::feedback::{
    are_arms, same_arms, same_feedback_gives_same_arms, signal, signal_of, Arm, EventView, FeedbackMeta, Signal,
};
use crate::number::{content_name, decimal, name_of, print_number};
use crate::scan::{has_part, part_stands_between};
use crate::score::{is_nearest, significand_shows_nearest, Score};
use crate::text::{clone_opt, opt_text, views};
use vstd::prelude::*;

verus! {

/// The smallest weight, 0.2: no source and no topic dies out. By its place among the doubles.
pub const MIN_WEIGHT: i64 = 0x3fc9_9999_9999_999a;

/// The largest weight, 2.0. By its place among the doubles.
pub const MAX_WEIGHT: i64 = 0x4000_0000_0000_0000;

/// The smallest weight that the safety gate lets pass: `MIN_WEIGHT` less 1e-9.
pub const GATE_MIN: i64 = 0x3fc9_9999_9773_d81d;

/// The largest weight that the safety gate lets pass: `MAX_WEIGHT` and 1e-9.
pub const GATE_MAX: i64 = 0x4000_0000_0022_5c18;

/// The largest share of the weights of all sources that one source may hold, 0.5.
/// By its place among the doubles.
pub const MAX_SOURCE_SHARE: i64 = 0x3fe0_0000_0000_0000;

// ---------------------------------------------------------------------------
// The candidate
// ---------------------------------------------------------------------------

/// A sample within the bounds of the weights.
pub open spec fn clamped(s: Score) -> Score {
    if s.place < MIN_WEIGHT {
        Score { place: MIN_WEIGHT }
    } else if s.place > MAX_WEIGHT {
        Score { place: MAX_WEIGHT }
    } else {
        s
    }
}

/// Brings a sample within the bounds of the weights.
pub fn clamp_weight(s: Score) -> (r: Score)
    ensures
        MIN_WEIGHT <= r.place <= MAX_WEIGHT,
        MIN_WEIGHT <= s.place <= MAX_WEIGHT ==> r == s,
        r == clamped(s),
{
    if s.place < MIN_WEIGHT {
        Score { place: MIN_WEIGHT }
    } else if s.place > MAX_WEIGHT {
        Score { place: MAX_WEIGHT }
    } else {
        s
    }
}

/// The last sample for a name, if there is one.
pub open spec fn sampled(samples: Seq<Weight>, name: Seq<char>) -> Option<Score>
    decreases samples.len(),
{
    if samples.len() == 0 {
        None
    } else if samples.last().name@ == name {
        Some(samples.last().value)
    } else {
        sampled(samples.drop_last(), name)
    }
}

/// The weight of a name in a candidate: its sample within the bounds, or else
/// the weight that it had.
pub open spec fn proposed(active: WeightTable, samples: Seq<Weight>, name: Seq<char>) -> Option<Score> {
    match sampled(samples, name) {
        Some(s) => Some(clamped(s)),
        None => active.weight(name),
    }
}

/// Overrides weights by samples.
fn overridden(active: &WeightTable, samples: &Vec<Weight>) -> (r: WeightTable)
    ensures
        active.sorted() ==> r.sorted(),
        forall|n: Seq<char>| #[trigger] r.weight(n) == proposed(*active, samples@, n),
{
    let mut table = active.clone();
    let mut i: usize = 0;
    while i < samples.len()
        invariant
            i <= samples@.len(),
            active.sorted() ==> table.sorted(),
            forall|n: Seq<char>| #[trigger] table.weight(n) == proposed(*active, samples@.take(i as int), n),
        decreases samples.len() - i,
    {
        let ghost before = table;
        table.insert(&samples[i].name, clamp_weight(samples[i].value));
        proof {
            assert(samples@.take(i + 1).drop_last() =~= samples@.take(i as int));
            assert(samples@.take(i + 1).last() == samples@[i as int]);
            assert forall|n: Seq<char>| #[trigger] table.weight(n) == proposed(*active, samples@.take(i + 1), n) by {
                if n != samples@[i as int].name@ {
                    assert(before.weight(n) == proposed(*active, samples@.take(i as int), n));
                }
            }
        }
        i = i + 1;
    }
    assert(samples@.take(i as int) =~= samples@);
    table
}

/// Whether a configuration is the one proposed: its tables stand in order where
/// the active ones do, and every name has the proposed weight.
pub open spec fn is_proposal(
    r: Config,
    active: Config,
    source_samples: Seq<Weight>,
    topic_samples: Seq<Weight>,
) -> bool {
    &&& active.sorted() ==> r.sorted()
    &&& forall|n: Seq<char>|
        #[trigger] r.source_weights.weight(n) == proposed(active.source_weights, source_samples, n)
    &&& forall|n: Seq<char>| #[trigger] r.topic_weights.weight(n) == proposed(active.topic_weights, topic_samples, n)
}

/// Proposes new weights: one sample for each source and topic on which there
/// is feedback, within the bounds; all other weights stay.
pub fn propose(active: &Config, source_samples: &Vec<Weight>, topic_samples: &Vec<Weight>) -> (r: Config)
    ensures
        is_proposal(r, *active, source_samples@, topic_samples@),
{
    Config {
        source_weights: overridden(&active.source_weights, source_samples),
        topic_weights: overridden(&active.topic_weights, topic_samples),
    }
}

/// What is proposed lies within the bounds: the weight of a name that was
/// sampled always, every other weight if it did before.
pub proof fn proposal_stays_within_bounds(active: WeightTable, samples: Seq<Weight>, name: Seq<char>)
    requires
        proposed(active, samples, name) is Some,
        sampled(samples, name) is Some || MIN_WEIGHT <= active.weight(name)->0.place <= MAX_WEIGHT,
    ensures
        MIN_WEIGHT <= proposed(active, samples, name)->0.place <= MAX_WEIGHT,
{
}

/// Whether two lists of samples have the same names and values.
pub open spec fn same_samples(a: Seq<Weight>, b: Seq<Weight>) -> bool {
    &&& a.len() == b.len()
    &&& forall|i: int| 0 <= i < a.len() ==> (#[trigger] a[i]).name@ == b[i].name@ && a[i].value == b[i].value
}

/// The same samples give every name the same weight.
proof fn lemma_same_sampled(a: Seq<Weight>, b: Seq<Weight>, name: Seq<char>)
    requires
        same_samples(a, b),
    ensures
        sampled(a, name) == sampled(b, name),
    decreases a.len(),
{
    if a.len() > 0 {
        assert(a[a.len() - 1].name@ == b[a.len() - 1].name@);
        assert forall|i: int| 0 <= i < a.drop_last().len() implies (#[trigger] a.drop_last()[i]).name@
            == b.drop_last()[i].name@ && a.drop_last()[i].value == b.drop_last()[i].value by {
            assert(a[i].name@ == b[i].name@);
        }
        lemma_same_sampled(a.drop_last(), b.drop_last(), name);
    }
}

/// Whether two configurations hold the same names and weights, in the same order.
pub open spec fn same_config(a: Config, b: Config) -> bool {
    same_entries(a.source_weights, b.source_weights) && same_entries(a.topic_weights, b.topic_weights)
}

/// The same samples over the same weights give the same candidate, written in
/// the same way: the seed of the samples makes learning reproducible.
pub proof fn same_samples_give_same_candidate(
    a: Config,
    b: Config,
    active_a: Config,
    active_b: Config,
    sources_a: Seq<Weight>,
    topics_a: Seq<Weight>,
    sources_b: Seq<Weight>,
    topics_b: Seq<Weight>,
)
    requires
        active_a.sorted(),
        active_b.sorted(),
        same_config(active_a, active_b),
        is_proposal(a, active_a, sources_a, topics_a),
        is_proposal(b, active_b, sources_b, topics_b),
        same_samples(sources_a, sources_b),
        same_samples(topics_a, topics_b),
    ensures
        same_config(a, b),
{
    assert forall|n: Seq<char>| #[trigger] a.source_weights.weight(n) == b.source_weights.weight(n) by {
        same_entries_weigh_the_same(active_a.source_weights, active_b.source_weights, n);
        lemma_same_sampled(sources_a, sources_b, n);
    }
    assert forall|n: Seq<char>| #[trigger] a.topic_weights.weight(n) == b.topic_weights.weight(n) by {
        same_entries_weigh_the_same(active_a.topic_weights, active_b.topic_weights, n);
        lemma_same_sampled(topics_a, topics_b, n);
    }
    tables_are_canonical(a.source_weights, b.source_weights);
    tables_are_canonical(a.topic_weights, b.topic_weights);
}

/// The name of a configuration: it depends on its content alone, given as JSON.
pub fn config_version(json: &str) -> (r: String)
    ensures
        r@ == content_name("cfg-"@, json@),
{
    name_of("cfg-", json)
}

// ---------------------------------------------------------------------------
// The safety gate
// ---------------------------------------------------------------------------

/// What the safety gate finds.
#[derive(Debug)]
pub struct GateResult {
    pub passed: bool,
    pub reasons: Vec<String>,
}

/// The share of the weightiest source, and the share in whole percent as text.
#[derive(Debug)]
pub struct TopShare {
    pub share: Score,
    pub percent: String,
}

/// Whether the safety gate lets a weight pass.
pub open spec fn in_bounds(s: Score) -> bool {
    GATE_MIN <= s.place <= GATE_MAX
}

/// What is said of a weight out of bounds, which prints as `shown`.
pub open spec fn bound_reason(prefix: Seq<char>, name: Seq<char>, shown: Seq<char>) -> Seq<char> {
    prefix + name + ": Gewicht "@ + shown + " außerhalb [0.2, 2]"@
}

/// What is said of the weights out of bounds, one after the other.
pub open spec fn bound_reasons(prefix: Seq<char>, entries: Seq<Weight>, shown: Seq<Seq<char>>) -> Seq<Seq<char>>
    decreases entries.len(),
{
    if entries.len() == 0 {
        seq![]
    } else {
        let before = bound_reasons(prefix, entries.drop_last(), shown);
        if in_bounds(entries.last().value) {
            before
        } else {
            before.push(bound_reason(prefix, entries.last().name@, shown[entries.len() - 1]))
        }
    }
}

/// Whether one source holds too much: of three sources or more it has more
/// than half of the weight.
pub open spec fn is_monoculture(sources: nat, top: Option<TopShare>) -> bool {
    sources >= 3 && top is Some && top->0.share.place > MAX_SOURCE_SHARE
}

/// What is said of a source that holds too much.
pub open spec fn share_reasons(sources: nat, top: Option<TopShare>) -> Seq<Seq<char>> {
    if is_monoculture(sources, top) {
        seq!["Quellen-Monokultur: Top-Quelle hält "@ + top->0.percent@ + " % des Gewichts (>50 %)"@]
    } else {
        seq![]
    }
}

/// Everything that speaks against a candidate.
pub open spec fn objections(
    c: Config,
    source_texts: Seq<Seq<char>>,
    topic_texts: Seq<Seq<char>>,
    top: Option<TopShare>,
) -> Seq<Seq<char>> {
    bound_reasons("source:"@, c.source_weights.entries@, source_texts) + bound_reasons(
        "topic:"@,
        c.topic_weights.entries@,
        topic_texts,
    ) + share_reasons(c.source_weights.entries@.len(), top)
}

/// Whether the safety gate finds this: a candidate passes where nothing speaks against it.
pub open spec fn is_verdict(
    r: GateResult,
    c: Config,
    source_texts: Seq<Seq<char>>,
    topic_texts: Seq<Seq<char>>,
    top: Option<TopShare>,
) -> bool {
    &&& r.passed == (objections(c, source_texts, topic_texts, top).len() == 0)
    &&& views(r.reasons@) == if r.passed {
        seq!["alle Invarianten erfüllt"@]
    } else {
        objections(c, source_texts, topic_texts, top)
    }
}

/// Checks the weights of one table.
fn check_bounds(reasons: &mut Vec<String>, prefix: &str, entries: &Vec<Weight>, shown: &Vec<String>)
    requires
        shown@.len() == entries@.len(),
    ensures
        views(final(reasons)@) == views(old(reasons)@) + bound_reasons(prefix@, entries@, views(shown@)),
{
    let ghost before = views(reasons@);
    let ghost texts = views(shown@);
    let mut i: usize = 0;
    assert(bound_reasons(prefix@, entries@.take(0), texts) =~= seq![]);
    while i < entries.len()
        invariant
            i <= entries@.len(),
            shown@.len() == entries@.len(),
            texts == views(shown@),
            views(reasons@) == before + bound_reasons(prefix@, entries@.take(i as int), texts),
        decreases entries.len() - i,
    {
        let w: Score = entries[i].value;
        proof {
            assert(entries@.take(i + 1).drop_last() =~= entries@.take(i as int));
            assert(entries@.take(i + 1).last() == entries@[i as int]);
        }
        if w.place < GATE_MIN || w.place > GATE_MAX {
            let mut text = String::new();
            text.append(prefix);
            text.append(&entries[i].name);
            text.append(": Gewicht ");
            text.append(&shown[i]);
            text.append(" außerhalb [0.2, 2]");
            let ghost said = text@;
            let ghost prev = reasons@;
            assert(said =~= bound_reason(prefix@, entries@[i as int].name@, texts[i as int]));
            reasons.push(text);
            assert(views(reasons@) =~= views(prev).push(said));
        }
        assert(views(reasons@) =~= before + bound_reasons(prefix@, entries@.take(i + 1), texts));
        i = i + 1;
    }
    assert(entries@.take(i as int) =~= entries@);
}

/// The weight of the weightiest source; zero where no weight is above zero.
pub fn top_weight(c: &Config) -> (r: Score)
    ensures
        r.place >= 0,
        forall|i: int|
            0 <= i < c.source_weights.entries@.len() ==> (#[trigger] c.source_weights.entries@[i]).value.place <= r.place,
        r.place == 0 || exists|i: int|
            0 <= i < c.source_weights.entries@.len() && (#[trigger] c.source_weights.entries@[i]).value == r,
{
    let mut top = Score { place: 0 };
    let mut i: usize = 0;
    while i < c.source_weights.entries.len()
        invariant
            i <= c.source_weights.entries@.len(),
            top.place >= 0,
            forall|k: int| 0 <= k < i ==> (#[trigger] c.source_weights.entries@[k]).value.place <= top.place,
            top.place == 0 || exists|k: int|
                0 <= k < c.source_weights.entries@.len() && (#[trigger] c.source_weights.entries@[k]).value == top,
        decreases c.source_weights.entries.len() - i,
    {
        if top.less(c.source_weights.entries[i].value) {
            top = c.source_weights.entries[i].value;
        }
        i = i + 1;
    }
    top
}

/// The safety gate: every weight is within the bounds, and no source holds too
/// much. The weights come with their texts to two decimals; `top` is the share of
/// the weightiest source, if the weights have a positive sum.
pub fn gate(c: &Config, source_texts: &Vec<String>, topic_texts: &Vec<String>, top: &Option<TopShare>) -> (r: GateResult)
    requires
        source_texts@.len() == c.source_weights.entries@.len(),
        topic_texts@.len() == c.topic_weights.entries@.len(),
    ensures
        is_verdict(r, *c, views(source_texts@), views(topic_texts@), *top),
{
    let mut reasons: Vec<String> = Vec::new();
    assert(views(reasons@) =~= seq![]);
    check_bounds(&mut reasons, "source:", &c.source_weights.entries, source_texts);
    check_bounds(&mut reasons, "topic:", &c.topic_weights.entries, topic_texts);
    let ghost so_far = views(reasons@);
    if c.source_weights.entries.len() >= 3 {
        match top {
            Some(t) => {
                if t.share.place > MAX_SOURCE_SHARE {
                    let mut text = String::new();
                    text.append("Quellen-Monokultur: Top-Quelle hält ");
                    text.append(&t.percent);
                    text.append(" % des Gewichts (>50 %)");
                    let ghost said = text@;
                    let ghost prev = reasons@;
                    assert(said =~= "Quellen-Monokultur: Top-Quelle hält "@ + t.percent@ + " % des Gewichts (>50 %)"@);
                    reasons.push(text);
                    assert(views(reasons@) =~= views(prev).push(said));
                }
            },
            None => {},
        }
    }
    let ghost found = objections(*c, views(source_texts@), views(topic_texts@), *top);
    assert(views(reasons@) =~= found);
    let passed: bool = reasons.len() == 0;
    if passed {
        reasons.push("alle Invarianten erfüllt".to_string());
        assert(views(reasons@) =~= seq!["alle Invarianten erfüllt"@]);
    }
    GateResult { passed, reasons }
}

/// Whether two shares are the same.
pub open spec fn same_share(a: Option<TopShare>, b: Option<TopShare>) -> bool {
    match (a, b) {
        (Some(a), Some(b)) => a.share == b.share && a.percent@ == b.percent@,
        (None, None) => true,
        _ => false,
    }
}

proof fn lemma_same_reasons(prefix: Seq<char>, a: Seq<Weight>, b: Seq<Weight>, shown: Seq<Seq<char>>)
    requires
        same_samples(a, b),
    ensures
        bound_reasons(prefix, a, shown) == bound_reasons(prefix, b, shown),
    decreases a.len(),
{
    if a.len() > 0 {
        assert(a[a.len() - 1].name@ == b[a.len() - 1].name@);
        assert forall|i: int| 0 <= i < a.drop_last().len() implies (#[trigger] a.drop_last()[i]).name@
            == b.drop_last()[i].name@ && a.drop_last()[i].value == b.drop_last()[i].value by {
            assert(a[i].name@ == b[i].name@);
        }
        lemma_same_reasons(prefix, a.drop_last(), b.drop_last(), shown);
    }
}

/// The safety gate says the same of the same candidate.
pub proof fn same_candidates_are_judged_the_same(
    a: Config,
    b: Config,
    source_texts: Seq<Seq<char>>,
    topic_texts: Seq<Seq<char>>,
    top_a: Option<TopShare>,
    top_b: Option<TopShare>,
)
    requires
        same_config(a, b),
        same_share(top_a, top_b),
    ensures
        objections(a, source_texts, topic_texts, top_a) == objections(b, source_texts, topic_texts, top_b),
{
    lemma_same_reasons(
        "source:"@,
        a.source_weights.entries@,
        b.source_weights.entries@,
        source_texts,
    );
    lemma_same_reasons("topic:"@, a.topic_weights.entries@, b.topic_weights.entries@, topic_texts);
    assert(share_reasons(a.source_weights.entries@.len(), top_a) =~= share_reasons(
        b.source_weights.entries@.len(),
        top_b,
    ));
}

proof fn lemma_bound_reasons(prefix: Seq<char>, entries: Seq<Weight>, shown: Seq<Seq<char>>)
    ensures
        bound_reasons(prefix, entries, shown).len() == 0 <==> forall|i: int|
            0 <= i < entries.len() ==> in_bounds((#[trigger] entries[i]).value),
    decreases entries.len(),
{
    if entries.len() > 0 {
        let before = entries.drop_last();
        lemma_bound_reasons(prefix, before, shown);
        if forall|i: int| 0 <= i < entries.len() ==> in_bounds((#[trigger] entries[i]).value) {
            assert forall|i: int| 0 <= i < before.len() implies in_bounds((#[trigger] before[i]).value) by {
                assert(in_bounds(entries[i].value));
            }
            assert(in_bounds(entries[entries.len() - 1].value));
        }
        if bound_reasons(prefix, entries, shown).len() == 0 {
            assert forall|i: int| 0 <= i < entries.len() implies in_bounds((#[trigger] entries[i]).value) by {
                if i < before.len() {
                    assert(in_bounds(before[i].value));
                }
            }
        }
    }
}

/// The safety gate opens exactly where every weight is within the bounds and no
/// source of three or more holds more than half of the weight.
pub proof fn gate_keeps_invariants(
    c: Config,
    source_texts: Seq<Seq<char>>,
    topic_texts: Seq<Seq<char>>,
    top: Option<TopShare>,
)
    ensures
        objections(c, source_texts, topic_texts, top).len() == 0 <==> {
            &&& forall|i: int|
                0 <= i < c.source_weights.entries@.len() ==> in_bounds((#[trigger] c.source_weights.entries@[i]).value)
            &&& forall|i: int|
                0 <= i < c.topic_weights.entries@.len() ==> in_bounds((#[trigger] c.topic_weights.entries@[i]).value)
            &&& !is_monoculture(c.source_weights.entries@.len(), top)
        },
{
    lemma_bound_reasons("source:"@, c.source_weights.entries@, source_texts);
    lemma_bound_reasons("topic:"@, c.topic_weights.entries@, topic_texts);
}

// ---------------------------------------------------------------------------
// The preference that the feedback shows
// ---------------------------------------------------------------------------

/// Whether an event speaks for its item.
pub open spec fn speaks_for(e: EventView) -> bool {
    signal(e.kind) == Signal::Liked || signal(e.kind) == Signal::Opened
}

/// Whether an event speaks against its item.
pub open spec fn speaks_against(e: EventView) -> bool {
    signal(e.kind) == Signal::Disliked
}

/// The places of the events that speak for their items, or of those that speak against them.
pub open spec fn speaking(events: Seq<EventView>, favour: bool) -> Seq<int>
    decreases events.len(),
{
    if events.len() == 0 {
        seq![]
    } else {
        let before = speaking(events.drop_last(), favour);
        if if favour {
            speaks_for(events.last())
        } else {
            speaks_against(events.last())
        } {
            before.push(events.len() - 1)
        } else {
            before
        }
    }
}

/// Every place of `a` with every place of `b`.
pub open spec fn pairs(a: Seq<int>, b: Seq<int>) -> Seq<(int, int)>
    decreases a.len(),
{
    if a.len() == 0 {
        seq![]
    } else {
        pairs(a.drop_last(), b) + Seq::new(b.len(), |j: int| (a.last(), b[j]))
    }
}

/// The places as integers.
pub open spec fn as_places(s: Seq<usize>) -> Seq<int> {
    Seq::new(s.len(), |i: int| s[i] as int)
}

/// Pairs of places as integers.
pub open spec fn as_pairs(s: Seq<(usize, usize)>) -> Seq<(int, int)> {
    Seq::new(s.len(), |i: int| (s[i].0 as int, s[i].1 as int))
}

/// Lists the places of the events that speak for their items, or against them.
fn list_speaking(rows: &Vec<FeedbackMeta>, favour: bool) -> (r: Vec<usize>)
    ensures
        as_places(r@) == speaking(views(rows@), favour),
{
    let ghost all = views(rows@);
    let mut out: Vec<usize> = Vec::new();
    let mut i: usize = 0;
    assert(as_places(out@) =~= seq![]);
    while i < rows.len()
        invariant
            i <= rows@.len(),
            all == views(rows@),
            as_places(out@) == speaking(all.take(i as int), favour),
        decreases rows.len() - i,
    {
        let speaks: bool = match signal_of(&rows[i].kind) {
            Signal::Liked => favour,
            Signal::Opened => favour,
            Signal::Disliked => !favour,
            Signal::Silent => false,
        };
        proof {
            assert(all.take(i + 1).drop_last() =~= all.take(i as int));
            assert(all.take(i + 1).last() == rows@[i as int]@);
        }
        if speaks {
            let ghost prev = out@;
            out.push(i);
            assert(as_places(out@) =~= as_places(prev).push(i as int));
        }
        i = i + 1;
    }
    assert(all.take(i as int) =~= all);
    out
}

/// The pairs on which a preference can show: an event that speaks for its item
/// with one that speaks against. None where one side is missing.
pub fn preference_pairs(rows: &Vec<FeedbackMeta>) -> (r: Option<Vec<(usize, usize)>>)
    ensures
        match r {
            Some(p) => as_pairs(p@) == pairs(speaking(views(rows@), true), speaking(views(rows@), false)) && p@.len()
                > 0,
            None => speaking(views(rows@), true).len() == 0 || speaking(views(rows@), false).len() == 0,
        },
{
    let pos = list_speaking(rows, true);
    let neg = list_speaking(rows, false);
    let ghost a = as_places(pos@);
    let ghost b = as_places(neg@);
    if pos.len() == 0 || neg.len() == 0 {
        return None;
    }
    let mut out: Vec<(usize, usize)> = Vec::new();
    let mut i: usize = 0;
    assert(as_pairs(out@) =~= seq![]);
    while i < pos.len()
        invariant
            i <= pos@.len(),
            a == as_places(pos@),
            b == as_places(neg@),
            b.len() > 0,
            as_pairs(out@) == pairs(a.take(i as int), b),
            i > 0 ==> out@.len() > 0,
        decreases pos.len() - i,
    {
        let ghost before = as_pairs(out@);
        let ghost row = Seq::new(b.len(), |j: int| (a[i as int], b[j]));
        let mut j: usize = 0;
        assert(before + row.take(0) =~= before);
        while j < neg.len()
            invariant
                i < pos@.len(),
                j <= neg@.len(),
                a == as_places(pos@),
                b == as_places(neg@),
                row == Seq::new(b.len(), |j: int| (a[i as int], b[j])),
                as_pairs(out@) == before + row.take(j as int),
            decreases neg.len() - j,
        {
            let ghost prev = out@;
            out.push((pos[i], neg[j]));
            assert(as_pairs(out@) =~= as_pairs(prev).push(row[j as int]));
            assert(before + row.take(j + 1) =~= (before + row.take(j as int)).push(row[j as int]));
            j = j + 1;
        }
        proof {
            assert(row.take(j as int) =~= row);
            assert(a.take(i + 1).drop_last() =~= a.take(i as int));
            assert(as_pairs(out@).len() == before.len() + row.len());
        }
        i = i + 1;
    }
    assert(a.take(i as int) =~= a);
    Some(out)
}

/// How a configuration ranks the two items of a pair.
#[derive(Clone, Copy, Debug, PartialEq, Eq, Structural)]
pub enum PairOrder {
    /// The liked item higher.
    Above,
    /// Both alike.
    Level,
    /// The liked item lower.
    Below,
}

/// How often a configuration agrees with the feedback, in halves: a pair counts
/// two where the liked item is higher and one where both are alike.
pub open spec fn agreement(orders: Seq<PairOrder>) -> nat
    decreases orders.len(),
{
    if orders.len() == 0 {
        0
    } else {
        agreement(orders.drop_last()) + match orders.last() {
            PairOrder::Above => 2nat,
            PairOrder::Level => 1nat,
            PairOrder::Below => 0nat,
        }
    }
}

/// Counts the agreement, in halves. Divided by twice the number of pairs it is
/// the preference of the configuration.
pub fn agreement_halves(orders: &Vec<PairOrder>) -> (r: u128)
    ensures
        r == agreement(orders@),
        r <= 2 * orders@.len(),
{
    let mut n: u128 = 0;
    let mut i: usize = 0;
    while i < orders.len()
        invariant
            i <= orders@.len(),
            n == agreement(orders@.take(i as int)),
            n <= 2 * i,
        decreases orders.len() - i,
    {
        proof {
            assert(orders@.take(i + 1).drop_last() =~= orders@.take(i as int));
            assert(orders@.take(i + 1).last() == orders@[i as int]);
        }
        match orders[i] {
            PairOrder::Above => {
                n = n + 2;
            },
            PairOrder::Level => {
                n = n + 1;
            },
            PairOrder::Below => {},
        }
        i = i + 1;
    }
    assert(orders@.take(i as int) =~= orders@);
    n
}

// ---------------------------------------------------------------------------
// The decision
// ---------------------------------------------------------------------------

/// The preference of a configuration, with its text to three decimals and with
/// the tolerance of 1e-9 added.
#[derive(Debug)]
pub struct Preference {
    pub value: Score,
    pub raised: Score,
    pub shown: String,
}

/// How learning ended.
#[derive(Debug)]
pub struct LearnOutcome {
    pub adopted: bool,
    pub version: String,
    pub parent: Option<String>,
    pub reason: String,
    pub gate_reasons: Vec<String>,
    pub n_feedback: usize,
    /// The preference of the active configuration; none where it cannot be judged.
    pub eval_active: Option<Score>,
    /// The preference of the candidate.
    pub eval_candidate: Option<Score>,
}

/// Whether the candidate is worse than the active configuration, by more than the tolerance.
pub open spec fn is_worse(active: Option<Preference>, candidate: Option<Preference>) -> bool {
    active is Some && candidate is Some && candidate->0.raised.place < active->0.value.place
}

/// Why a candidate was adopted or not.
pub open spec fn learn_reason(
    passed: bool,
    n_feedback: nat,
    active: Option<Preference>,
    candidate: Option<Preference>,
) -> Seq<char> {
    if !passed {
        "Safety Gate fehlgeschlagen — Kandidat verworfen"@
    } else if is_worse(active, candidate) {
        "Eval-Gate: Präferenz-AUC verschlechtert ("@ + active->0.shown@ + " → "@ + candidate->0.shown@
            + ") — verworfen"@
    } else {
        "Thompson-Update aus "@ + decimal(n_feedback) + " Feedback-Ereignissen · "@ + if active is Some
            && candidate is Some {
            "Präferenz-AUC "@ + active->0.shown@ + " → "@ + candidate->0.shown@
        } else {
            "Eval inconclusive (einseitiges/dünnes Feedback) — nur Invarianten"@
        }
    }
}

/// The number of an optional preference.
pub open spec fn value_of(p: Option<Preference>) -> Option<Score> {
    match p {
        Some(p) => Some(p.value),
        None => None,
    }
}

/// The number of an optional preference.
fn preference_value(p: &Option<Preference>) -> (r: Option<Score>)
    ensures
        r == value_of(*p),
{
    match p {
        Some(p) => Some(p.value),
        None => None,
    }
}

/// A candidate, with what belongs to it alone: its JSON, its weights as texts to
/// two decimals, the share of its weightiest source, and its preference.
#[derive(Debug)]
pub struct LearnCandidate {
    pub config: Config,
    pub json: String,
    pub source_texts: Vec<String>,
    pub topic_texts: Vec<String>,
    pub top: Option<TopShare>,
    pub preference: Option<Preference>,
}

impl LearnCandidate {
    /// Whether every weight has its text.
    pub open spec fn well_formed(&self) -> bool {
        &&& self.source_texts@.len() == self.config.source_weights.entries@.len()
        &&& self.topic_texts@.len() == self.config.topic_weights.entries@.len()
    }

    /// Everything that speaks against the candidate.
    pub open spec fn objections(&self) -> Seq<Seq<char>> {
        objections(self.config, views(self.source_texts@), views(self.topic_texts@), self.top)
    }
}

/// Whether learning ended so: the candidate is adopted where nothing speaks
/// against it and it does not agree less with the feedback than the active
/// configuration does. Its version comes from its JSON.
pub open spec fn is_outcome(
    r: LearnOutcome,
    candidate: LearnCandidate,
    parent: Option<Seq<char>>,
    n_feedback: nat,
    active: Option<Preference>,
) -> bool {
    let passed = candidate.objections().len() == 0;
    &&& r.adopted == (passed && !is_worse(active, candidate.preference))
    &&& r.version@ == content_name("cfg-"@, candidate.json@)
    &&& opt_text(r.parent) == parent
    &&& r.reason@ == learn_reason(passed, n_feedback, active, candidate.preference)
    &&& views(r.gate_reasons@) == if passed {
        seq!["alle Invarianten erfüllt"@]
    } else {
        candidate.objections()
    }
    &&& r.n_feedback == n_feedback
    &&& r.eval_active == value_of(active)
    &&& r.eval_candidate == value_of(candidate.preference)
}

/// Decides on a candidate: it is adopted where it passes the safety gate and does not
/// agree less with the feedback than the active configuration does. Gives back
/// how learning ended and what is to be written.
pub fn learn_once(
    candidate: LearnCandidate,
    parent: Option<String>,
    n_feedback: usize,
    active: Option<Preference>,
) -> (r: (LearnOutcome, Vec<ConfigWrite>))
    requires
        candidate.well_formed(),
    ensures
        is_outcome(r.0, candidate, opt_text(parent), n_feedback as nat, active),
        views(r.1@) == learn_writes(r.0, candidate.json@),
{
    let verdict = gate(&candidate.config, &candidate.source_texts, &candidate.topic_texts, &candidate.top);
    let eval_active = preference_value(&active);
    let eval_candidate = preference_value(&candidate.preference);
    let mut reason = String::new();
    let mut adopted: bool = false;
    if !verdict.passed {
        reason.append("Safety Gate fehlgeschlagen — Kandidat verworfen");
    } else {
        adopted = true;
        let mut note = String::new();
        match (&active, &candidate.preference) {
            (Some(a), Some(c)) => {
                if c.raised.less(a.value) {
                    adopted = false;
                    reason.append("Eval-Gate: Präferenz-AUC verschlechtert (");
                    reason.append(&a.shown);
                    reason.append(" → ");
                    reason.append(&c.shown);
                    reason.append(") — verworfen");
                } else {
                    note.append("Präferenz-AUC ");
                    note.append(&a.shown);
                    note.append(" → ");
                    note.append(&c.shown);
                }
            },
            _ => {
                note.append("Eval inconclusive (einseitiges/dünnes Feedback) — nur Invarianten");
            },
        }
        if adopted {
            reason.append("Thompson-Update aus ");
            reason.append(&print_number(n_feedback as u64));
            reason.append(" Feedback-Ereignissen · ");
            reason.append(&note);
        }
    }
    assert(reason@ =~= learn_reason(verdict.passed, n_feedback as nat, active, candidate.preference));
    let outcome = LearnOutcome {
        adopted,
        version: config_version(&candidate.json),
        parent,
        reason,
        gate_reasons: verdict.reasons,
        n_feedback,
        eval_active,
        eval_candidate,
    };
    let writes = list_writes(&outcome, candidate.json);
    (outcome, writes)
}

/// Whether two preferences are the same.
pub open spec fn same_preference(a: Option<Preference>, b: Option<Preference>) -> bool {
    match (a, b) {
        (Some(a), Some(b)) => a.value == b.value && a.raised == b.raised && a.shown@ == b.shown@,
        (None, None) => true,
        _ => false,
    }
}

/// What is written to the store for a configuration.
#[derive(Debug)]
pub enum ConfigWrite {
    Save { version: String, parent: Option<String>, reason: String, payload: String },
    Activate { version: String },
}

/// What a write is.
pub enum ConfigWriteView {
    Save { version: Seq<char>, parent: Option<Seq<char>>, reason: Seq<char>, payload: Seq<char> },
    Activate { version: Seq<char> },
}

impl View for ConfigWrite {
    type V = ConfigWriteView;

    open spec fn view(&self) -> ConfigWriteView {
        match self {
            ConfigWrite::Save { version, parent, reason, payload } => ConfigWriteView::Save {
                version: version@,
                parent: opt_text(*parent),
                reason: reason@,
                payload: payload@,
            },
            ConfigWrite::Activate { version } => ConfigWriteView::Activate { version: version@ },
        }
    }
}

/// What is written once learning has ended: an adopted candidate is saved with
/// its JSON and then activated; of a rejected one nothing is written.
pub open spec fn learn_writes(outcome: LearnOutcome, json: Seq<char>) -> Seq<ConfigWriteView> {
    if outcome.adopted {
        seq![
            ConfigWriteView::Save {
                version: outcome.version@,
                parent: opt_text(outcome.parent),
                reason: outcome.reason@,
                payload: json,
            },
            ConfigWriteView::Activate { version: outcome.version@ },
        ]
    } else {
        seq![]
    }
}

/// Lists what is written once learning has ended.
fn list_writes(outcome: &LearnOutcome, json: String) -> (r: Vec<ConfigWrite>)
    ensures
        views(r@) == learn_writes(*outcome, json@),
{
    let mut out: Vec<ConfigWrite> = Vec::new();
    if outcome.adopted {
        out.push(
            ConfigWrite::Save {
                version: outcome.version.clone(),
                parent: clone_opt(&outcome.parent),
                reason: outcome.reason.clone(),
                payload: json,
            },
        );
        out.push(ConfigWrite::Activate { version: outcome.version.clone() });
    }
    assert(views(out@) =~= learn_writes(*outcome, json@));
    out
}

/// Goes back to an earlier configuration, which must exist.
pub fn rollback(version: &str, exists: bool) -> (r: Result<ConfigWrite, String>)
    ensures
        match r {
            Ok(w) => exists && w@ == (ConfigWriteView::Activate { version: version@ }),
            Err(e) => !exists && e@ == "Config-Version '"@ + version@ + "' existiert nicht"@,
        },
{
    if exists {
        Ok(ConfigWrite::Activate { version: version.to_string() })
    } else {
        let mut text = String::new();
        text.append("Config-Version '");
        text.append(version);
        text.append("' existiert nicht");
        assert(text@ =~= "Config-Version '"@ + version@ + "' existiert nicht"@);
        Err(text)
    }
}

/// Learning is safe: what is adopted keeps the invariants of the safety gate, and
/// where the feedback allows a judgement, it agrees with it no less than before,
/// the tolerance aside.
pub proof fn adopted_is_safe(
    r: LearnOutcome,
    candidate: LearnCandidate,
    parent: Option<Seq<char>>,
    n_feedback: nat,
    active: Option<Preference>,
)
    requires
        is_outcome(r, candidate, parent, n_feedback, active),
        r.adopted,
    ensures
        forall|i: int|
            0 <= i < candidate.config.source_weights.entries@.len() ==> in_bounds(
                (#[trigger] candidate.config.source_weights.entries@[i]).value,
            ),
        forall|i: int|
            0 <= i < candidate.config.topic_weights.entries@.len() ==> in_bounds(
                (#[trigger] candidate.config.topic_weights.entries@[i]).value,
            ),
        !is_monoculture(candidate.config.source_weights.entries@.len(), candidate.top),
        active is Some && candidate.preference is Some ==> candidate.preference->0.raised.place
            >= active->0.value.place,
{
    gate_keeps_invariants(
        candidate.config,
        views(candidate.source_texts@),
        views(candidate.topic_texts@),
        candidate.top,
    );
}

/// One run of learning: the feedback and the configuration that it starts from, the
/// arms and the samples drawn for them, the candidate, and how it ends.
pub struct LearnRun {
    pub rows: Seq<EventView>,
    pub active: Config,
    pub parent: Option<Seq<char>>,
    pub source_arms: Seq<Arm>,
    pub topic_arms: Seq<Arm>,
    pub source_samples: Seq<Weight>,
    pub topic_samples: Seq<Weight>,
    pub candidate: LearnCandidate,
    /// The preference of the active configuration.
    pub preference: Option<Preference>,
    pub outcome: LearnOutcome,
    pub writes: Seq<ConfigWriteView>,
}

impl LearnRun {
    /// Whether the steps of the run follow one from the other: the arms from the
    /// feedback, the candidate from the samples, the end from the candidate.
    pub open spec fn is_whole(&self) -> bool {
        &&& self.active.sorted()
        &&& are_arms(self.source_arms, self.rows, false)
        &&& are_arms(self.topic_arms, self.rows, true)
        &&& is_proposal(self.candidate.config, self.active, self.source_samples, self.topic_samples)
        &&& is_outcome(self.outcome, self.candidate, self.parent, self.rows.len(), self.preference)
        &&& self.writes == learn_writes(self.outcome, self.candidate.json@)
    }
}

/// Whether two runs draw by the same seed: for the same arms, the same samples.
pub open spec fn same_seed(a: LearnRun, b: LearnRun) -> bool {
    same_arms(a.source_arms, b.source_arms) && same_arms(a.topic_arms, b.topic_arms) ==> same_samples(
        a.source_samples,
        b.source_samples,
    ) && same_samples(a.topic_samples, b.topic_samples)
}

/// Whether two runs print and value configurations in the same way.
pub open spec fn same_reading(a: LearnRun, b: LearnRun) -> bool {
    &&& same_config(a.active, b.active) ==> same_preference(a.preference, b.preference)
    &&& same_config(a.candidate.config, b.candidate.config) ==> {
        &&& a.candidate.json@ == b.candidate.json@
        &&& views(a.candidate.source_texts@) == views(b.candidate.source_texts@)
        &&& views(a.candidate.topic_texts@) == views(b.candidate.topic_texts@)
        &&& same_share(a.candidate.top, b.candidate.top)
        &&& same_preference(a.candidate.preference, b.candidate.preference)
    }
}

/// Learning is reproducible: from the same feedback and the same active
/// configuration, the same seed leads to the same candidate, which ends the same
/// way and is written the same way.
pub proof fn learning_is_reproducible(a: LearnRun, b: LearnRun)
    requires
        a.is_whole(),
        b.is_whole(),
        a.rows == b.rows,
        same_config(a.active, b.active),
        a.parent == b.parent,
        same_seed(a, b),
        same_reading(a, b),
    ensures
        same_config(a.candidate.config, b.candidate.config),
        a.outcome.version@ == b.outcome.version@,
        a.outcome.adopted == b.outcome.adopted,
        a.outcome.reason@ == b.outcome.reason@,
        views(a.outcome.gate_reasons@) == views(b.outcome.gate_reasons@),
        a.outcome.eval_active == b.outcome.eval_active,
        a.outcome.eval_candidate == b.outcome.eval_candidate,
        a.writes == b.writes,
{
    same_feedback_gives_same_arms(a.source_arms, b.source_arms, a.rows, false);
    same_feedback_gives_same_arms(a.topic_arms, b.topic_arms, a.rows, true);
    same_samples_give_same_candidate(
        a.candidate.config,
        b.candidate.config,
        a.active,
        b.active,
        a.source_samples,
        a.topic_samples,
        b.source_samples,
        b.topic_samples,
    );
    same_candidates_are_judged_the_same(
        a.candidate.config,
        b.candidate.config,
        views(a.candidate.source_texts@),
        views(a.candidate.topic_texts@),
        a.candidate.top,
        b.candidate.top,
    );
    assert(a.writes =~= b.writes);
}

/// The decision of a test over several days.
#[derive(Clone, Copy, Debug, PartialEq, Eq, Structural)]
pub enum AbDecision {
    Promote,
    Reject,
    KeepRunning,
}

/// What a trial of two configurations comes to: with too few days of either it goes on;
/// a mean from the one limit on promotes the candidate, one up to the other rejects it.
pub open spec fn ab_outcome(
    control_days: usize,
    candidate_days: usize,
    min_samples: usize,
    candidate_mean: Score,
    promote_at: Score,
    reject_at: Score,
) -> AbDecision {
    if control_days < min_samples || candidate_days < min_samples {
        AbDecision::KeepRunning
    } else if candidate_mean.place >= promote_at.place {
        AbDecision::Promote
    } else if candidate_mean.place <= reject_at.place {
        AbDecision::Reject
    } else {
        AbDecision::KeepRunning
    }
}

/// Compares two variants by the means of their scores. Both need at least
/// `min_samples` days. `promote_at` and `reject_at` are the mean of the control with
/// the demanded margin added and subtracted.
pub fn ab_decision(
    control_days: usize,
    candidate_days: usize,
    min_samples: usize,
    candidate_mean: Score,
    promote_at: Score,
    reject_at: Score,
) -> (r: AbDecision)
    ensures
        r is Promote ==> control_days >= min_samples && candidate_days >= min_samples && candidate_mean.place
            >= promote_at.place,
        r is Reject ==> control_days >= min_samples && candidate_days >= min_samples && candidate_mean.place
            <= reject_at.place,
        r is KeepRunning ==> control_days < min_samples || candidate_days < min_samples || (reject_at.place
            < candidate_mean.place < promote_at.place),
        r == ab_outcome(control_days, candidate_days, min_samples, candidate_mean, promote_at, reject_at),
        r == if control_days < min_samples || candidate_days < min_samples {
            AbDecision::KeepRunning
        } else if candidate_mean.place >= promote_at.place {
            AbDecision::Promote
        } else if candidate_mean.place <= reject_at.place {
            AbDecision::Reject
        } else {
            AbDecision::KeepRunning
        },
{
    if control_days < min_samples || candidate_days < min_samples {
        AbDecision::KeepRunning
    } else if !candidate_mean.less(promote_at) {
        AbDecision::Promote
    } else if !reject_at.less(candidate_mean) {
        AbDecision::Reject
    } else {
        AbDecision::KeepRunning
    }
}

// ---------------------------------------------------------------------------
// What samples do to the weights
// ---------------------------------------------------------------------------

/// A sample within the bounds is the weight; one below them becomes the smallest
/// weight, one above them the largest.
pub proof fn sample_becomes_the_weight(active: WeightTable, samples: Seq<Weight>, name: Seq<char>, k: int)
    requires
        0 <= k < samples.len(),
        samples[k].name@ == name,
        forall|j: int| k < j < samples.len() ==> (#[trigger] samples[j]).name@ != name,
    ensures
        proposed(active, samples, name) is Some,
        MIN_WEIGHT <= samples[k].value.place <= MAX_WEIGHT ==> proposed(active, samples, name) == Some(
            samples[k].value,
        ),
        samples[k].value.place < MIN_WEIGHT ==> proposed(active, samples, name)->0.place == MIN_WEIGHT,
        samples[k].value.place > MAX_WEIGHT ==> proposed(active, samples, name)->0.place == MAX_WEIGHT,
{
    lemma_last_sample(samples, name, k);
}

/// The last sample for a name counts.
proof fn lemma_last_sample(samples: Seq<Weight>, name: Seq<char>, k: int)
    requires
        0 <= k < samples.len(),
        samples[k].name@ == name,
        forall|j: int| k < j < samples.len() ==> (#[trigger] samples[j]).name@ != name,
    ensures
        sampled(samples, name) == Some(samples[k].value),
    decreases samples.len(),
{
    if k < samples.len() - 1 {
        assert(samples[samples.len() - 1].name@ != name);
        lemma_last_sample(samples.drop_last(), name, k);
    }
}

/// A name that was not sampled keeps the weight that it had, or has none as before.
pub proof fn unsampled_weight_stays(active: WeightTable, samples: Seq<Weight>, name: Seq<char>)
    requires
        forall|j: int| 0 <= j < samples.len() ==> (#[trigger] samples[j]).name@ != name,
    ensures
        proposed(active, samples, name) == active.weight(name),
    decreases samples.len(),
{
    if samples.len() > 0 {
        assert(samples[samples.len() - 1].name@ != name);
        unsampled_weight_stays(active, samples.drop_last(), name);
    }
}

/// Of two samples the larger one never gives the smaller weight: what readers like
/// more is not weighed down below what they like less.
pub proof fn larger_sample_weighs_no_less(
    active: WeightTable,
    low: Weight,
    high: Weight,
    samples: Seq<Weight>,
)
    requires
        low.value.place <= high.value.place,
    ensures
        proposed(active, samples.push(low), low.name@) is Some,
        proposed(active, samples.push(high), high.name@) is Some,
        proposed(active, samples.push(low), low.name@)->0.place <= proposed(
            active,
            samples.push(high),
            high.name@,
        )->0.place,
{
    sample_becomes_the_weight(active, samples.push(low), low.name@, samples.len() as int);
    sample_becomes_the_weight(active, samples.push(high), high.name@, samples.len() as int);
}

// ---------------------------------------------------------------------------
// What feedback asks of a configuration
// ---------------------------------------------------------------------------

/// The events that speak for their items are those with a thumb up, a wish for more or
/// an opening; those that speak against them have a thumb down or a wish for less.
pub proof fn thumbs_speak(events: Seq<EventView>, favour: bool, k: int)
    requires
        0 <= k < events.len(),
    ensures
        speaking(events, true).contains(k) <==> events[k].kind == "up"@ || events[k].kind == "more"@ || events[k].kind
            == "open"@,
        speaking(events, false).contains(k) <==> (events[k].kind == "down"@ || events[k].kind == "less"@),
        forall|i: int, j: int|
            0 <= i < j < speaking(events, favour).len() ==> (#[trigger] speaking(events, favour)[i]) < (
            #[trigger] speaking(events, favour)[j]),
        forall|i: int|
            0 <= i < speaking(events, favour).len() ==> 0 <= (#[trigger] speaking(events, favour)[i]) < events.len(),
{
    reveal_strlit("up");
    reveal_strlit("down");
    reveal_strlit("more");
    reveal_strlit("less");
    reveal_strlit("open");
    assert("up"@.len() == 2);
    assert("down"@[0] == 'd' && "more"@[0] == 'm' && "less"@[0] == 'l' && "open"@[0] == 'o');
    lemma_speaking(events, true);
    lemma_speaking(events, false);
}

proof fn lemma_speaking(events: Seq<EventView>, favour: bool)
    ensures
        forall|k: int|
            #[trigger] speaking(events, favour).contains(k) <==> 0 <= k < events.len() && (if favour {
                speaks_for(events[k])
            } else {
                speaks_against(events[k])
            }),
        forall|i: int, j: int|
            0 <= i < j < speaking(events, favour).len() ==> (#[trigger] speaking(events, favour)[i]) < (
            #[trigger] speaking(events, favour)[j]),
        forall|i: int|
            0 <= i < speaking(events, favour).len() ==> 0 <= (#[trigger] speaking(events, favour)[i]) < events.len(),
    decreases events.len(),
{
    if events.len() > 0 {
        let before = speaking(events.drop_last(), favour);
        let all = speaking(events, favour);
        lemma_speaking(events.drop_last(), favour);
        assert forall|k: int|
            #[trigger] all.contains(k) <==> 0 <= k < events.len() && (if favour {
                speaks_for(events[k])
            } else {
                speaks_against(events[k])
            }) by {
            assert(before.contains(k) <==> 0 <= k < events.len() - 1 && (if favour {
                speaks_for(events.drop_last()[k])
            } else {
                speaks_against(events.drop_last()[k])
            }));
            if before.contains(k) {
                let i = choose|i: int| 0 <= i < before.len() && before[i] == k;
                assert(all[i] == k);
            }
            if all.len() > before.len() {
                assert(all[before.len() as int] == events.len() - 1);
            }
            if all.contains(k) {
                let i = choose|i: int| 0 <= i < all.len() && all[i] == k;
                if i < before.len() {
                    assert(before[i] == k);
                }
            }
        }
    }
}

/// Each of one list is compared with each of the other, once.
pub proof fn each_is_compared_with_each(a: Seq<int>, b: Seq<int>, x: int, y: int)
    ensures
        pairs(a, b).contains((x, y)) <==> a.contains(x) && b.contains(y),
        pairs(a, b).len() == a.len() * b.len(),
        a.no_duplicates() && b.no_duplicates() ==> pairs(a, b).no_duplicates(),
    decreases a.len(),
{
    if a.len() > 0 {
        let before = pairs(a.drop_last(), b);
        let row = Seq::new(b.len(), |j: int| (a.last(), b[j]));
        let all = pairs(a, b);
        assert(all == before + row);
        each_is_compared_with_each(a.drop_last(), b, x, y);
        assert(a.len() * b.len() == (a.len() - 1) * b.len() + b.len()) by (nonlinear_arith)
            requires
                a.len() > 0,
        ;
        assert(a =~= a.drop_last().push(a.last()));
        assert(a.contains(x) <==> a.drop_last().contains(x) || x == a.last());
        if before.contains((x, y)) {
            let i = choose|i: int| 0 <= i < before.len() && before[i] == (x, y);
            assert(all[i] == (x, y));
        }
        if x == a.last() && b.contains(y) {
            let j = choose|j: int| 0 <= j < b.len() && b[j] == y;
            assert(row[j] == (x, y));
            assert(all[before.len() + j] == (x, y));
        }
        if all.contains((x, y)) {
            let i = choose|i: int| 0 <= i < all.len() && all[i] == (x, y);
            if i < before.len() {
                assert(before[i] == (x, y));
            } else {
                assert(row[i - before.len()] == (x, y));
                assert(b[i - before.len()] == y);
            }
        }
        if a.no_duplicates() && b.no_duplicates() {
            assert forall|i: int, j: int| 0 <= i < j < all.len() implies all[i] != all[j] by {
                if j < before.len() {
                    assert(before[i] == all[i] && before[j] == all[j]);
                } else if i >= before.len() {
                    assert(all[i] == row[i - before.len()] && all[j] == row[j - before.len()]);
                } else {
                    let p = all[i];
                    assert(before.contains(p)) by {
                        assert(before[i] == p);
                    }
                    each_is_compared_with_each(a.drop_last(), b, p.0, p.1);
                    assert(all[j] == row[j - before.len()]);
                    if p.0 == a.last() {
                        let q = choose|q: int| 0 <= q < a.drop_last().len() && a.drop_last()[q] == p.0;
                        assert(a[q] == a[a.len() - 1]);
                    }
                }
            }
        }
    }
}

/// The agreement adds up over the pairs: two halves where the liked item stands
/// higher, one where both stand alike, none where it stands lower.
pub proof fn agreement_adds_up(a: Seq<PairOrder>, b: Seq<PairOrder>)
    ensures
        agreement(a + b) == agreement(a) + agreement(b),
        agreement(seq![PairOrder::Above]) == 2,
        agreement(seq![PairOrder::Level]) == 1,
        agreement(seq![PairOrder::Below]) == 0,
    decreases b.len(),
{
    assert(seq![PairOrder::Above].drop_last() =~= Seq::<PairOrder>::empty());
    assert(seq![PairOrder::Level].drop_last() =~= Seq::<PairOrder>::empty());
    assert(seq![PairOrder::Below].drop_last() =~= Seq::<PairOrder>::empty());
    assert(agreement(Seq::<PairOrder>::empty()) == 0);
    if b.len() == 0 {
        assert(a + b =~= a);
    } else {
        agreement_adds_up(a, b.drop_last());
        assert((a + b).drop_last() =~= a + b.drop_last());
    }
}

/// The safety gate lets a candidate pass exactly where every weight lies between 0.2
/// and 2.0, a billionth more or less, and where of three sources or more none holds
/// more than half.
pub proof fn safe_candidates_pass(
    r: GateResult,
    c: Config,
    source_texts: Seq<Seq<char>>,
    topic_texts: Seq<Seq<char>>,
    top: Option<TopShare>,
)
    requires
        is_verdict(r, c, source_texts, topic_texts, top),
    ensures
        r.passed <==> {
            &&& forall|i: int|
                0 <= i < c.source_weights.entries@.len() ==> 0x3fc9_9999_9773_d81d <= (
                #[trigger] c.source_weights.entries@[i]).value.place <= 0x4000_0000_0022_5c18
            &&& forall|i: int|
                0 <= i < c.topic_weights.entries@.len() ==> 0x3fc9_9999_9773_d81d <= (
                #[trigger] c.topic_weights.entries@[i]).value.place <= 0x4000_0000_0022_5c18
            &&& c.source_weights.entries@.len() < 3 || top is None || top->0.share.place <= 0x3fe0_0000_0000_0000
        },
        r.reasons@.len() >= 1,
{
    gate_keeps_invariants(c, source_texts, topic_texts, top);
    assert(r.reasons@.len() == views(r.reasons@).len());
}

/// Every weight out of bounds is named, each with its number.
pub proof fn weights_out_of_bounds_are_named(prefix: Seq<char>, entries: Seq<Weight>, shown: Seq<Seq<char>>, k: int)
    requires
        0 <= k < entries.len(),
        entries[k].value.place < 0x3fc9_9999_9773_d81d || entries[k].value.place > 0x4000_0000_0022_5c18,
    ensures
        bound_reasons(prefix, entries, shown).contains(
            prefix + entries[k].name@ + ": Gewicht "@ + shown[k] + " außerhalb [0.2, 2]"@,
        ),
    decreases entries.len(),
{
    let all = bound_reasons(prefix, entries, shown);
    let before = bound_reasons(prefix, entries.drop_last(), shown);
    let said = prefix + entries[k].name@ + ": Gewicht "@ + shown[k] + " außerhalb [0.2, 2]"@;
    if k == entries.len() - 1 {
        assert(all[before.len() as int] == said);
    } else {
        weights_out_of_bounds_are_named(prefix, entries.drop_last(), shown, k);
        let i = choose|i: int| 0 <= i < before.len() && before[i] == said;
        assert(all[i] == said);
    }
}

/// A candidate is adopted exactly where it is safe and where its agreement with the
/// feedback, raised by the tolerance, reaches that of the active configuration, if
/// both can be told. Only an adopted candidate is saved and activated.
pub proof fn safe_and_no_worse_is_adopted(
    r: LearnOutcome,
    candidate: LearnCandidate,
    parent: Option<Seq<char>>,
    n_feedback: nat,
    active: Option<Preference>,
    json: Seq<char>,
)
    requires
        is_outcome(r, candidate, parent, n_feedback, active),
    ensures
        r.adopted && active is Some && candidate.preference is Some ==> candidate.preference->0.raised.place
            >= active->0.value.place,
        candidate.objections().len() == 0 && (active is None || candidate.preference is None) ==> r.adopted,
        candidate.objections().len() == 0 && active is Some && candidate.preference is Some
            && candidate.preference->0.raised.place >= active->0.value.place ==> r.adopted,
        candidate.objections().len() > 0 ==> !r.adopted,
        !r.adopted ==> learn_writes(r, json).len() == 0,
        r.adopted ==> learn_writes(r, json).len() == 2 && learn_writes(r, json)[0] is Save && learn_writes(
            r,
            json,
        )[0]->payload == json && learn_writes(r, json)[0]->Save_version == r.version@ && learn_writes(r, json)[1]
            == (ConfigWriteView::Activate { version: r.version@ }),
{
}

/// The bounds: weights lie between 0.2 and 2, and no source holds more than a half.
/// The safety gate is wider than the bounds of the weights, and by little.
pub proof fn bounds_of_the_weights()
    ensures
        is_nearest(Score { place: MIN_WEIGHT }, 1, 5),
        is_nearest(Score { place: MAX_WEIGHT }, 2, 1),
        is_nearest(Score { place: MAX_SOURCE_SHARE }, 1, 2),
        is_nearest(Score { place: NEUTRAL_WEIGHT }, 1, 1),
        GATE_MIN < MIN_WEIGHT < NEUTRAL_WEIGHT < MAX_WEIGHT < GATE_MAX,
{
    significand_shows_nearest(Score { place: MIN_WEIGHT }, 1, 2, 0x1999999999999a, 1, 5);
    significand_shows_nearest(Score { place: MAX_WEIGHT }, 5, 32, 0x10000000000000, 2, 1);
    significand_shows_nearest(Score { place: MAX_SOURCE_SHARE }, 3, 8, 0x10000000000000, 1, 2);
    significand_shows_nearest(Score { place: NEUTRAL_WEIGHT }, 4, 16, 0x10000000000000, 1, 1);
}

/// The reason says how learning ended: one text for a candidate that is not safe,
/// another with both numbers for one that is worse, and otherwise how much feedback
/// there was and, where both can be told, both numbers.
pub proof fn reason_says_how_learning_ended(
    passed: bool,
    n_feedback: nat,
    active: Option<Preference>,
    candidate: Option<Preference>,
)
    ensures
        !passed ==> learn_reason(passed, n_feedback, active, candidate)
            == "Safety Gate fehlgeschlagen — Kandidat verworfen"@,
        passed && active is Some && candidate is Some ==> has_part(
            learn_reason(passed, n_feedback, active, candidate),
            "Präferenz-AUC "@,
        ) && has_part(
            learn_reason(passed, n_feedback, active, candidate),
            active->0.shown@ + " → "@ + candidate->0.shown@,
        ),
        passed && !is_worse(active, candidate) ==> has_part(
            learn_reason(passed, n_feedback, active, candidate),
            decimal(n_feedback) + " Feedback-Ereignissen"@,
        ),
{
    let r = learn_reason(passed, n_feedback, active, candidate);
    let n = decimal(n_feedback);
    let auc = "Präferenz-AUC "@;
    reveal_strlit("Präferenz-AUC ");
    if passed && is_worse(active, candidate) {
        let (a, c) = (active->0.shown@, candidate->0.shown@);
        reveal_strlit("Eval-Gate: Präferenz-AUC verschlechtert (");
        reveal_strlit("Eval-Gate: ");
        reveal_strlit("verschlechtert (");
        let head = "Eval-Gate: Präferenz-AUC verschlechtert ("@;
        assert(head =~= "Eval-Gate: "@ + auc + "verschlechtert ("@);
        let both = a + " → "@ + c;
        part_stands_between(r, both, head, ") — verworfen"@);
        assert(r =~= head + both + ") — verworfen"@);
        part_stands_between(r, auc, "Eval-Gate: "@, "verschlechtert ("@ + both + ") — verworfen"@);
        assert(r =~= "Eval-Gate: "@ + auc + ("verschlechtert ("@ + both + ") — verworfen"@));
    } else if passed {
        let head = "Thompson-Update aus "@;
        reveal_strlit(" Feedback-Ereignissen · ");
        reveal_strlit(" Feedback-Ereignissen");
        reveal_strlit(" · ");
        assert(" Feedback-Ereignissen · "@ =~= " Feedback-Ereignissen"@ + " · "@);
        let tail = if active is Some && candidate is Some {
            auc + active->0.shown@ + " → "@ + candidate->0.shown@
        } else {
            "Eval inconclusive (einseitiges/dünnes Feedback) — nur Invarianten"@
        };
        let said = n + " Feedback-Ereignissen"@;
        part_stands_between(r, said, head, " · "@ + tail);
        assert(r =~= head + said + (" · "@ + tail));
        if active is Some && candidate is Some {
            let both = active->0.shown@ + " → "@ + candidate->0.shown@;
            part_stands_between(r, auc, head + said + " · "@, both);
            assert(r =~= head + said + " · "@ + auc + both);
            part_stands_between(r, both, head + said + " · "@ + auc, seq![]);
            assert(r =~= head + said + " · "@ + auc + both + seq![]);
        }
    }
}

/// The share of the largest source is named where it is too large, and nowhere else.
pub proof fn monoculture_is_named(sources: nat, top: Option<TopShare>)
    ensures
        share_reasons(sources, top).len() > 0 <==> sources >= 3 && top is Some && top->0.share.place
            > 0x3fe0_0000_0000_0000,
        share_reasons(sources, top).len() > 0 ==> share_reasons(sources, top).len() == 1 && has_part(
            share_reasons(sources, top)[0],
            top->0.percent@ + " %"@,
        ),
{
    if is_monoculture(sources, top) {
        let r = share_reasons(sources, top)[0];
        let head = "Quellen-Monokultur: Top-Quelle hält "@;
        reveal_strlit(" % des Gewichts (>50 %)");
        reveal_strlit(" %");
        reveal_strlit(" des Gewichts (>50 %)");
        assert(" % des Gewichts (>50 %)"@ =~= " %"@ + " des Gewichts (>50 %)"@);
        part_stands_between(r, top->0.percent@ + " %"@, head, " des Gewichts (>50 %)"@);
        assert(r =~= head + (top->0.percent@ + " %"@) + " des Gewichts (>50 %)"@);
    }
}

/// A trial is decided only on enough days of both configurations, and then by the mean
/// of the candidate alone: from the one limit on it is promoted, up to the other it is
/// rejected. A better mean never does worse.
pub proof fn trial_is_decided_by_the_mean(
    control_days: usize,
    candidate_days: usize,
    min_samples: usize,
    mean: Score,
    better: Score,
    promote_at: Score,
    reject_at: Score,
)
    requires
        mean.place <= better.place,
        reject_at.place < promote_at.place,
    ensures
        ab_outcome(control_days, candidate_days, min_samples, mean, promote_at, reject_at) is Promote <==> control_days
            >= min_samples && candidate_days >= min_samples && mean.place >= promote_at.place,
        ab_outcome(control_days, candidate_days, min_samples, mean, promote_at, reject_at) is Reject <==> control_days
            >= min_samples && candidate_days >= min_samples && mean.place <= reject_at.place,
        ab_outcome(control_days, candidate_days, min_samples, mean, promote_at, reject_at) is Promote ==> ab_outcome(
            control_days,
            candidate_days,
            min_samples,
            better,
            promote_at,
            reject_at,
        ) is Promote,
        ab_outcome(control_days, candidate_days, min_samples, better, promote_at, reject_at) is Reject ==> ab_outcome(
            control_days,
            candidate_days,
            min_samples,
            mean,
            promote_at,
            reject_at,
        ) is Reject,
{
}

} // verus!
