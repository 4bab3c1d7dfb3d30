//! The evolution of the sources: judging them, dropping weak ones, and watching
//! that the choice does not narrow. Breadth goes before engagement.

use crate::config::WeightTable;
use crate::feedback::{
    all_names, distinct_texts_grow, evidence_on, is_evidence, list_names, listed_name_is_given, names_are_listed, ArmStats, EventView, FeedbackMeta,
};
use crate::number::{decimal, print_number};
use crate::score::{is_nearest, significand_shows_nearest, Score};
use crate::sorting::{arranged, comes_before, descending_order, is_descending, order_is_unique};
use crate::text::{distinct_texts, distinct_texts_are_those, later_texts_displace_none, push_distinct, same, views};
use vstd::prelude::*;

verus! {

/// How many sources stay active at least.
pub const MIN_ACTIVE_SOURCES: usize = 3;

/// A source below this quality, 0.25, may be dropped. By its place among the doubles.
pub const PRUNE_THRESHOLD: i64 = 0x3fd0_0000_0000_0000;

/// Above this concentration, 0.5, the choice of sources is too narrow. By its
/// place among the doubles.
pub const MAX_HHI: i64 = 0x3fe0_0000_0000_0000;

/// The quality of a source of which nothing is known, 0.5. By its place among the doubles.
pub const UNKNOWN_QUALITY: i64 = 0x3fe0_0000_0000_0000;

/// Whether the choice of sources is too narrow.
#[derive(Clone, Copy, Debug, PartialEq, Eq, Structural)]
pub enum Drift {
    Stable,
    ForceExploration,
}

/// How often a source was shown.
#[derive(Debug)]
pub struct Selection {
    pub source_id: String,
    pub n: i64,
}

/// What is known of a source. Its quality is made of the share of feedback in
/// its favour, 0.5 where there is none, and of how often it was shown.
#[derive(Debug)]
pub struct SourceEvidence {
    pub id: String,
    pub stats: ArmStats,
    pub selections: i64,
}

/// How often a source was shown, by the last entry for it; never where there is none.
pub open spec fn shown_count(selections: Seq<Selection>, id: Seq<char>) -> i64
    decreases selections.len(),
{
    if selections.len() == 0 {
        0
    } else if selections.last().source_id@ == id {
        selections.last().n
    } else {
        shown_count(selections.drop_last(), id)
    }
}

/// The names of the sources in the entries.
pub open spec fn selected_ids(selections: Seq<Selection>) -> Seq<Seq<char>> {
    Seq::new(selections.len(), |i: int| selections[i].source_id@)
}

/// The sources of which something is known: those with feedback, then those shown.
pub open spec fn known_sources(events: Seq<EventView>, selections: Seq<Selection>) -> Seq<Seq<char>> {
    distinct_texts(all_names(events, false) + selected_ids(selections))
}

/// How often a source was shown.
fn count_shown(selections: &Vec<Selection>, id: &str) -> (r: i64)
    ensures
        r == shown_count(selections@, id@),
{
    let mut n: i64 = 0;
    let mut i: usize = 0;
    while i < selections.len()
        invariant
            i <= selections@.len(),
            n == shown_count(selections@.take(i as int), id@),
        decreases selections.len() - i,
    {
        proof {
            assert(selections@.take(i + 1).drop_last() =~= selections@.take(i as int));
            assert(selections@.take(i + 1).last() == selections@[i as int]);
        }
        if same(&selections[i].source_id, id) {
            n = selections[i].n;
        }
        i = i + 1;
    }
    assert(selections@.take(i as int) =~= selections@);
    n
}

/// Gathers what is known of each source.
pub fn score_sources(feedback: &Vec<FeedbackMeta>, selections: &Vec<Selection>) -> (r: Vec<SourceEvidence>)
    ensures
        Seq::new(r@.len(), |i: int| r@[i].id@) == known_sources(views(feedback@), selections@),
        forall|i: int|
            0 <= i < r@.len() ==> is_evidence((#[trigger] r@[i]).stats, views(feedback@), false, r@[i].id@)
                && r@[i].selections == shown_count(selections@, r@[i].id@),
{
    let mut ids = list_names(feedback, false);
    let ghost first = all_names(views(feedback@), false);
    let ghost shown = selected_ids(selections@);
    let mut k: usize = 0;
    assert(first + shown.take(0) =~= first);
    while k < selections.len()
        invariant
            k <= selections@.len(),
            shown == selected_ids(selections@),
            views(ids@) == distinct_texts(first + shown.take(k as int)),
        decreases selections.len() - k,
    {
        let added = push_distinct(&mut ids, &selections[k].source_id);
        proof {
            assert(first + shown.take(k + 1) =~= (first + shown.take(k as int)).push(shown[k as int]));
            distinct_texts_grow(first + shown.take(k as int), shown[k as int]);
        }
        k = k + 1;
    }
    assert(shown.take(k as int) =~= shown);
    let mut out: Vec<SourceEvidence> = Vec::new();
    let mut i: usize = 0;
    while i < ids.len()
        invariant
            i <= ids@.len(),
            out@.len() == i,
            forall|j: int|
                0 <= j < i ==> (#[trigger] out@[j]).id@ == ids@[j]@ && is_evidence(
                    out@[j].stats,
                    views(feedback@),
                    false,
                    out@[j].id@,
                ) && out@[j].selections == shown_count(selections@, out@[j].id@),
        decreases ids.len() - i,
    {
        let stats = evidence_on(feedback, false, &ids[i]);
        let selections_of: i64 = count_shown(selections, &ids[i]);
        out.push(SourceEvidence { id: ids[i].clone(), stats, selections: selections_of });
        i = i + 1;
    }
    assert(Seq::new(out@.len(), |j: int| out@[j].id@) =~= views(ids@));
    out
}

/// The sum of all entries.
pub open spec fn sum_shown(selections: Seq<Selection>) -> int
    decreases selections.len(),
{
    if selections.len() == 0 {
        0
    } else {
        sum_shown(selections.drop_last()) + selections.last().n
    }
}

/// How often any source was shown. Where this is positive, the share of a
/// source is its part of it.
pub fn total_shown(selections: &Vec<Selection>) -> (r: i128)
    ensures
        r == sum_shown(selections@),
{
    let mut total: i128 = 0;
    let mut i: usize = 0;
    while i < selections.len()
        invariant
            i <= selections@.len(),
            total == sum_shown(selections@.take(i as int)),
            -(i * 0x8000_0000_0000_0000) <= total <= i * 0x8000_0000_0000_0000,
        decreases selections.len() - i,
    {
        proof {
            assert(selections@.take(i + 1).drop_last() =~= selections@.take(i as int));
            assert(selections@.take(i + 1).last() == selections@[i as int]);
        }
        total = total + selections[i].n as i128;
        i = i + 1;
    }
    assert(selections@.take(i as int) =~= selections@);
    total
}

// ---------------------------------------------------------------------------
// Dropping weak sources
// ---------------------------------------------------------------------------

/// The quality of a source, 0.5 where it has none.
pub open spec fn quality_of(scores: WeightTable, id: Seq<char>) -> Score {
    match scores.weight(id) {
        Some(s) => s,
        None => (Score { place: UNKNOWN_QUALITY }),
    }
}

/// The qualities of some sources, turned around, so that the weakest sorts first.
pub open spec fn weakness_keys(scores: WeightTable, active: Seq<Seq<char>>) -> Seq<i128> {
    Seq::new(active.len(), |i: int| (-quality_of(scores, active[i]).place) as i128)
}

/// Whether the first `m` sources in the given order are those to drop: all of
/// them are below the threshold, enough others stay, and neither holds of more.
pub open spec fn is_cut(
    scores: WeightTable,
    active: Seq<Seq<char>>,
    order: Seq<usize>,
    min_active: usize,
    threshold: Score,
    m: int,
) -> bool {
    &&& 0 <= m <= active.len()
    &&& m == 0 || m + min_active <= active.len()
    &&& forall|i: int|
        0 <= i < m ==> quality_of(scores, active[(#[trigger] order[i]) as int]).place < threshold.place
    &&& m + min_active >= active.len() || (m < active.len() && quality_of(
        scores,
        active[order[m] as int],
    ).place >= threshold.place)
}

/// Whether `r` lists the sources to drop: the weakest first, as they stood
/// where two are equally weak, and no more than the cut allows.
pub open spec fn are_pruned(
    scores: WeightTable,
    active: Seq<Seq<char>>,
    min_active: usize,
    threshold: Score,
    r: Seq<Seq<char>>,
) -> bool {
    exists|order: Seq<usize>| #[trigger]
        is_descending(order, weakness_keys(scores, active)) && is_cut(
            scores,
            active,
            order,
            min_active,
            threshold,
            r.len() as int,
        ) && r == arranged(active, order).take(r.len() as int)
}

/// The quality of a source.
fn quality(scores: &WeightTable, id: &str) -> (r: Score)
    ensures
        r == quality_of(*scores, id@),
{
    match scores.get(id) {
        Some(s) => s,
        None => Score { place: UNKNOWN_QUALITY },
    }
}

/// Recommends which of the active sources to drop: those below the threshold,
/// the weakest first, as long as more than `min_active` stay.
pub fn prune_recommendations(scores: &WeightTable, active: &Vec<String>, min_active: usize, threshold: Score) -> (r: Vec<
    String,
>)
    ensures
        are_pruned(*scores, views(active@), min_active, threshold, views(r@)),
{
    let ghost ids = views(active@);
    let ghost wanted = weakness_keys(*scores, ids);
    let mut keys: Vec<i128> = Vec::new();
    let mut k: usize = 0;
    while k < active.len()
        invariant
            k <= active@.len(),
            ids == views(active@),
            wanted == weakness_keys(*scores, ids),
            keys@ == wanted.take(k as int),
        decreases active.len() - k,
    {
        let q: Score = quality(scores, &active[k]);
        keys.push(-(q.place as i128));
        assert(wanted.take(k + 1) =~= wanted.take(k as int).push(wanted[k as int]));
        k = k + 1;
    }
    assert(keys@ =~= wanted);
    let order = descending_order(&keys);
    let mut out: Vec<String> = Vec::new();
    let mut i: usize = 0;
    assert(views(out@) =~= arranged(ids, order@).take(0));
    while i < order.len() && active.len() - i > min_active && quality(scores, &active[order[i]]).less(threshold)
        invariant
            i <= order@.len(),
            order@.len() == active@.len(),
            ids == views(active@),
            is_descending(order@, wanted),
            wanted == weakness_keys(*scores, ids),
            i == 0 || i + min_active <= active@.len(),
            forall|j: int|
                0 <= j < i ==> quality_of(*scores, ids[(#[trigger] order@[j]) as int]).place < threshold.place,
            views(out@) == arranged(ids, order@).take(i as int),
        decreases order.len() - i,
    {
        let ghost prev = out@;
        out.push(active[order[i]].clone());
        assert(views(out@) =~= views(prev).push(ids[order@[i as int] as int]));
        assert(arranged(ids, order@).take(i + 1) =~= arranged(ids, order@).take(i as int).push(
            ids[order@[i as int] as int],
        ));
        i = i + 1;
    }
    assert(views(out@).len() == i);
    out
}

/// The sources to drop are fixed by the qualities.
pub proof fn pruning_is_unique(
    scores: WeightTable,
    active: Seq<Seq<char>>,
    min_active: usize,
    threshold: Score,
    a: Seq<Seq<char>>,
    b: Seq<Seq<char>>,
)
    requires
        are_pruned(scores, active, min_active, threshold, a),
        are_pruned(scores, active, min_active, threshold, b),
    ensures
        a == b,
{
    let keys = weakness_keys(scores, active);
    let x = choose|order: Seq<usize>| #[trigger]
        is_descending(order, keys) && is_cut(scores, active, order, min_active, threshold, a.len() as int) && a
            == arranged(active, order).take(a.len() as int);
    let y = choose|order: Seq<usize>| #[trigger]
        is_descending(order, keys) && is_cut(scores, active, order, min_active, threshold, b.len() as int) && b
            == arranged(active, order).take(b.len() as int);
    order_is_unique(x, y, keys);
    if a.len() < b.len() {
        assert(quality_of(scores, active[x[a.len() as int] as int]).place < threshold.place);
    } else if b.len() < a.len() {
        assert(quality_of(scores, active[x[b.len() as int] as int]).place < threshold.place);
    }
}

/// Pruning never leaves fewer than `min_active` sources, and takes none where
/// there are no more than that.
pub proof fn pruning_keeps_enough(
    scores: WeightTable,
    active: Seq<Seq<char>>,
    min_active: usize,
    threshold: Score,
    r: Seq<Seq<char>>,
)
    requires
        are_pruned(scores, active, min_active, threshold, r),
    ensures
        active.len() - r.len() >= min_active || r.len() == 0,
        active.len() <= min_active ==> r.len() == 0,
{
}

/// Only weak sources are dropped, and the weakest of them.
pub proof fn pruning_takes_the_weakest(
    scores: WeightTable,
    active: Seq<Seq<char>>,
    min_active: usize,
    threshold: Score,
    r: Seq<Seq<char>>,
    i: int,
    kept: int,
)
    requires
        are_pruned(scores, active, min_active, threshold, r),
        0 <= i < r.len(),
        active.len() <= usize::MAX,
        0 <= kept < active.len(),
        !r.contains(active[kept]),
    ensures
        quality_of(scores, r[i]).place < threshold.place,
        quality_of(scores, r[i]).place <= quality_of(scores, active[kept]).place,
{
    let keys = weakness_keys(scores, active);
    let order = choose|order: Seq<usize>| #[trigger]
        is_descending(order, keys) && is_cut(scores, active, order, min_active, threshold, r.len() as int) && r
            == arranged(active, order).take(r.len() as int);
    assert(r[i] == active[order[i] as int]);
    assert(order.contains(kept as usize));
    let p = choose|p: int| 0 <= p < order.len() && order[p] == kept as usize;
    if p < r.len() {
        assert(r[p] == active[kept]);
    }
    assert(comes_before(keys, order[i] as int, order[p] as int));
}

/// Whether a concentration is too large.
pub open spec fn drift_of(hhi: Score, max_hhi: Score) -> Drift {
    if hhi.place > max_hhi.place {
        Drift::ForceExploration
    } else {
        Drift::Stable
    }
}

/// Whether the choice of sources is too narrow: `hhi` is the sum of the squares
/// of the shares of the sources.
pub fn drift_status(hhi: Score, max_hhi: Score) -> (r: Drift)
    ensures
        r == drift_of(hhi, max_hhi),
        r == if hhi.place > max_hhi.place {
            Drift::ForceExploration
        } else {
            Drift::Stable
        },
{
    if max_hhi.less(hhi) {
        Drift::ForceExploration
    } else {
        Drift::Stable
    }
}

/// How a step of the evolution ended.
#[derive(Debug)]
pub struct EvolveOutcome {
    pub quality_updates: usize,
    pub deactivated: Vec<String>,
    pub drift: Drift,
    pub note: String,
}

/// Whether a step of the evolution ends so.
pub open spec fn is_evolution(r: EvolveOutcome, scores: WeightTable, active: Seq<Seq<char>>, hhi: Score) -> bool {
    &&& r.quality_updates == scores.entries@.len()
    &&& r.drift == drift_of(hhi, Score { place: MAX_HHI })
    &&& r.drift == Drift::ForceExploration ==> r.deactivated@.len() == 0 && r.note@
        == "Drift erkannt → Pruning ausgesetzt, Breite erhalten (Anti-Blase)"@
    &&& r.drift == Drift::Stable ==> are_pruned(
        scores,
        active,
        MIN_ACTIVE_SOURCES,
        Score { place: PRUNE_THRESHOLD },
        views(r.deactivated@),
    ) && r.note@ == decimal(r.deactivated@.len()) + " Quelle(n) deaktiviert"@
}

/// A step of the evolution, for the sources with the given qualities: weak
/// sources are dropped, unless the choice is too narrow already.
pub fn evolve_once(scores: &WeightTable, active: &Vec<String>, hhi: Score) -> (r: EvolveOutcome)
    ensures
        is_evolution(r, *scores, views(active@), hhi),
        r.quality_updates == scores.entries@.len(),
        r.drift == if hhi.place > MAX_HHI {
            Drift::ForceExploration
        } else {
            Drift::Stable
        },
        r.drift == Drift::ForceExploration ==> r.deactivated@.len() == 0 && r.note@
            == "Drift erkannt → Pruning ausgesetzt, Breite erhalten (Anti-Blase)"@,
        r.drift == Drift::Stable ==> are_pruned(
            *scores,
            views(active@),
            MIN_ACTIVE_SOURCES,
            Score { place: PRUNE_THRESHOLD },
            views(r.deactivated@),
        ) && r.note@ == decimal(r.deactivated@.len()) + " Quelle(n) deaktiviert"@,
{
    let drift = drift_status(hhi, Score { place: MAX_HHI });
    match drift {
        Drift::ForceExploration => EvolveOutcome {
            quality_updates: scores.entries.len(),
            deactivated: Vec::new(),
            drift,
            note: "Drift erkannt → Pruning ausgesetzt, Breite erhalten (Anti-Blase)".to_string(),
        },
        Drift::Stable => {
            let deactivated = prune_recommendations(
                scores,
                active,
                MIN_ACTIVE_SOURCES,
                Score { place: PRUNE_THRESHOLD },
            );
            let mut note = print_number(deactivated.len() as u64);
            note.append(" Quelle(n) deaktiviert");
            EvolveOutcome { quality_updates: scores.entries.len(), deactivated, drift, note }
        },
    }
}

/// Every weak source is dropped, unless no more than `min_active` stay. A source is
/// weak by the quality it is listed with; one that is not listed counts as 0.5.
/// The weakest is named first.
pub proof fn weak_sources_are_dropped(
    scores: WeightTable,
    active: Seq<Seq<char>>,
    min_active: usize,
    threshold: Score,
    r: Seq<Seq<char>>,
    at: int,
)
    requires
        are_pruned(scores, active, min_active, threshold, r),
        active.len() <= usize::MAX,
        0 <= at < active.len(),
    ensures
        forall|i: int| 0 <= i < r.len() ==> active.contains(#[trigger] r[i]),
        scores.weight(active[at]) is Some && scores.weight(active[at])->0.place < threshold.place ==> r.contains(
            active[at],
        ) || r.len() + min_active >= active.len(),
        scores.weight(active[at]) is None && threshold.place > 0x3fe0_0000_0000_0000 ==> r.contains(active[at])
            || r.len() + min_active >= active.len(),
        r.contains(active[at]) && scores.weight(active[at]) is Some ==> scores.weight(active[at])->0.place
            < threshold.place,
        r.contains(active[at]) && scores.weight(active[at]) is None ==> threshold.place > 0x3fe0_0000_0000_0000,
        forall|i: int, j: int|
            0 <= i < j < r.len() && scores.weight(r[i]) is Some && scores.weight(r[j]) is Some ==> scores.weight(
                #[trigger] r[i],
            )->0.place <= scores.weight(#[trigger] r[j])->0.place,
        r.len() > 0 ==> r.len() + min_active <= active.len(),
{
    let keys = weakness_keys(scores, active);
    let order = choose|order: Seq<usize>| #[trigger]
        is_descending(order, keys) && is_cut(scores, active, order, min_active, threshold, r.len() as int) && r
            == arranged(active, order).take(r.len() as int);
    assert forall|i: int| 0 <= i < r.len() implies active.contains(#[trigger] r[i]) by {
        assert(r[i] == active[order[i] as int]);
    }
    assert(order.contains(at as usize));
    let p = choose|p: int| 0 <= p < order.len() && order[p] == at as usize;
    if p < r.len() {
        assert(r[p] == active[at]);
    } else if r.len() + min_active < active.len() {
        if p > r.len() {
            assert(comes_before(keys, order[r.len() as int] as int, order[p] as int));
        }
        assert(quality_of(scores, active[at]).place >= threshold.place);
    }
    if r.contains(active[at]) {
        let q = choose|q: int| 0 <= q < r.len() && r[q] == active[at];
        assert(quality_of(scores, active[order[q] as int]).place < threshold.place);
    }
    assert forall|i: int, j: int|
        0 <= i < j < r.len() && scores.weight(r[i]) is Some && scores.weight(r[j]) is Some implies scores.weight(
        #[trigger] r[i],
    )->0.place <= scores.weight(#[trigger] r[j])->0.place by {
        assert(comes_before(keys, order[i] as int, order[j] as int));
    }
}

/// A source counts as shown what its last entry says.
pub proof fn last_entry_says_how_often(selections: Seq<Selection>, id: Seq<char>, k: int)
    requires
        -1 <= k < selections.len(),
        k >= 0 ==> selections[k].source_id@ == id,
        forall|j: int| k < j < selections.len() ==> (#[trigger] selections[j]).source_id@ != id,
    ensures
        shown_count(selections, id) == if k >= 0 {
            selections[k].n
        } else {
            0
        },
    decreases selections.len(),
{
    if selections.len() > 0 && k < selections.len() - 1 {
        assert(selections[selections.len() - 1].source_id@ != id);
        last_entry_says_how_often(selections.drop_last(), id, k);
    }
}

/// The whole is the sum of its parts, whatever the sources.
pub proof fn entries_add_up(a: Seq<Selection>, b: Seq<Selection>, one: Selection)
    ensures
        sum_shown(a + b) == sum_shown(a) + sum_shown(b),
        sum_shown(seq![one]) == one.n,
    decreases b.len(),
{
    assert(seq![one].drop_last() =~= Seq::<Selection>::empty());
    assert(sum_shown(seq![one].drop_last()) == 0);
    if b.len() == 0 {
        assert(a + b =~= a);
    } else {
        entries_add_up(a, b.drop_last(), one);
        assert((a + b).drop_last() =~= a + b.drop_last());
    }
}

/// Exactly the sources with feedback and those shown are known, each once, those with
/// feedback first.
pub proof fn feedback_or_showing_makes_known(events: Seq<EventView>, selections: Seq<Selection>, id: Seq<char>)
    ensures
        known_sources(events, selections).no_duplicates(),
        distinct_texts(all_names(events, false)).is_prefix_of(known_sources(events, selections)),
        known_sources(events, selections).contains(id) <==> (exists|k: int|
            0 <= k < events.len() && (#[trigger] events[k]).source_id == id) || (exists|k: int|
            0 <= k < selections.len() && (#[trigger] selections[k]).source_id@ == id),
{
    let first = all_names(events, false);
    let shown = selected_ids(selections);
    let all = first + shown;
    distinct_texts_are_those(all);
    later_texts_displace_none(first, shown);
    if exists|k: int| 0 <= k < events.len() && (#[trigger] events[k]).source_id == id {
        let k = choose|k: int| 0 <= k < events.len() && (#[trigger] events[k]).source_id == id;
        names_are_listed(events, false, k, 0);
        let i = choose|i: int| 0 <= i < first.len() && first[i] == id;
        assert(all[i] == id);
    }
    if exists|k: int| 0 <= k < selections.len() && (#[trigger] selections[k]).source_id@ == id {
        let k = choose|k: int| 0 <= k < selections.len() && (#[trigger] selections[k]).source_id@ == id;
        assert(all[first.len() + k] == id);
    }
    if all.contains(id) {
        let i = choose|i: int| 0 <= i < all.len() && all[i] == id;
        if i < first.len() {
            assert(first[i] == id);
            let (k, m) = listed_name_is_given(events, false, id);
            assert(events[k].source_id == id);
        } else {
            assert(selections[i - first.len()].source_id@ == id);
        }
    }
}

/// A source is weak below a quarter; one of which nothing is known counts a half, and
/// the choice is too narrow above a half.
pub proof fn limits_of_the_sources()
    ensures
        is_nearest(Score { place: PRUNE_THRESHOLD }, 1, 4),
        is_nearest(Score { place: UNKNOWN_QUALITY }, 1, 2),
        is_nearest(Score { place: MAX_HHI }, 1, 2),
        PRUNE_THRESHOLD < UNKNOWN_QUALITY,
{
    significand_shows_nearest(Score { place: PRUNE_THRESHOLD }, 2, 4, 0x10000000000000, 1, 4);
    significand_shows_nearest(Score { place: UNKNOWN_QUALITY }, 3, 8, 0x10000000000000, 1, 2);
}

/// Breadth goes before engagement: where the choice is too narrow, no source is
/// dropped, however weak; otherwise every source below a quarter is, as long as more
/// than three stay, and no other.
pub proof fn narrow_choice_drops_no_source(
    r: EvolveOutcome,
    scores: WeightTable,
    active: Seq<Seq<char>>,
    hhi: Score,
    at: int,
)
    requires
        is_evolution(r, scores, active, hhi),
        active.len() <= usize::MAX,
        0 <= at < active.len(),
    ensures
        r.drift == Drift::ForceExploration <==> hhi.place > 0x3fe0_0000_0000_0000,
        hhi.place > 0x3fe0_0000_0000_0000 ==> r.deactivated@.len() == 0,
        hhi.place <= 0x3fe0_0000_0000_0000 && scores.weight(active[at]) is Some && scores.weight(active[at])->0.place
            < 0x3fd0_0000_0000_0000 ==> views(r.deactivated@).contains(active[at]) || r.deactivated@.len() + 3
            >= active.len(),
        views(r.deactivated@).contains(active[at]) ==> scores.weight(active[at]) is Some && scores.weight(
            active[at],
        )->0.place < 0x3fd0_0000_0000_0000,
        r.deactivated@.len() > 0 ==> r.deactivated@.len() + 3 <= active.len(),
        r.quality_updates == scores.entries@.len(),
{
    assert(views(r.deactivated@).len() == r.deactivated@.len());
    if r.drift == Drift::Stable {
        weak_sources_are_dropped(
            scores,
            active,
            MIN_ACTIVE_SOURCES,
            Score { place: PRUNE_THRESHOLD },
            views(r.deactivated@),
            at,
        );
    }
}

} // verus!
