//! The run that makes the briefing of a day: which items are fresh, what the
//! briefing is made of, and in which order it is saved, written and sent.

use crate::bakeoff::{add_counterpoint, set_tldr, with_counterpoint, with_tldr};
use crate::briefing::{
    clone_items, list_items, opt_components, push_item, push_section, sections_show_their_items, shown_items, Briefing,
    BriefingSection, BriefingView, ContentItem, ItemView, SectionView,
};
use crate::config::{are_item_weights, Config, ItemWeights, WeightTable};
use crate::eval::has_section;
use crate::llm::{Completion, CompletionView};
use crate::pipeline::{
    curate, first_of, has_id, is_newest_first, is_ranked, is_wildcard, main_section, newest_first, pick_wildcard,
    picked, rank, wildcard_widens_the_sources,
};
use crate::render::{output_path, render, rendered};
use crate::score::Score;
use crate::semantic::{
    at_places, collapse_near_duplicates, is_table, kept_places, with_embeddings, DEDUP_SIMILARITY,
};
use crate::store::{
    filter_unseen, item_row, places, row_of, save_briefing, texts_json, unseen, BriefingRows, ContentRow,
};
use crate::synthesis::{
    counterpoint_in, enrich, enrich_count, enrich_request, enrich_request_for, enriched, Enrichment, COUNTERPOINT_ID,
};
use crate::telegram::{messages, send_briefing, Message};
use crate::text::{opt_text, same, views};
use vstd::prelude::*;

verus! {

/// The identifier of the section with the wildcard.
pub const WILDCARD_ID: &'static str = "wildcard";

/// The title of the section with the wildcard.
pub const WILDCARD_TITLE: &'static str = "Wildcard";

/// The quality of a source that is not in the registry, 1.0. By its place among the doubles.
pub const UNREGISTERED_QUALITY: i64 = 0x3ff0_0000_0000_0000;

// ---------------------------------------------------------------------------
// Fresh items
// ---------------------------------------------------------------------------

/// The items that are taken up: all of them where the briefing is made anew,
/// otherwise those that were never seen.
pub fn fresh_items(items: Vec<ContentItem>, known: &Vec<bool>, force: bool) -> (r: Vec<ContentItem>)
    requires
        known@.len() == items@.len(),
    ensures
        views(r@) == if force {
            views(items@)
        } else {
            unseen(views(items@), known@)
        },
{
    if force {
        items
    } else {
        filter_unseen(items, known)
    }
}

/// The quality of a source; 1.0 where it is not in the registry.
pub open spec fn registered_quality(qualities: WeightTable, source: Seq<char>) -> Score {
    match qualities.weight(source) {
        Some(q) => q,
        None => (Score { place: UNREGISTERED_QUALITY }),
    }
}

/// The items of sources that are good enough.
pub open spec fn good_items(items: Seq<ItemView>, qualities: WeightTable, min: Score) -> Seq<ItemView>
    decreases items.len(),
{
    if items.len() == 0 {
        seq![]
    } else {
        let before = good_items(items.drop_last(), qualities, min);
        if registered_quality(qualities, items.last().source_id).place >= min.place {
            before.push(items.last())
        } else {
            before
        }
    }
}

/// The items that stand above the floor; without a floor all of them.
pub open spec fn above_floor(items: Seq<ItemView>, qualities: WeightTable, min: Score) -> Seq<ItemView> {
    if min.place > 0 {
        good_items(items, qualities, min)
    } else {
        items
    }
}

/// Drops the items of sources below the demanded quality; a demand of zero or
/// less drops none.
pub fn quality_floor(items: Vec<ContentItem>, qualities: &WeightTable, min: Score) -> (r: Vec<ContentItem>)
    ensures
        views(r@) == above_floor(views(items@), *qualities, min),
        views(r@) == if min.place > 0 {
            good_items(views(items@), *qualities, min)
        } else {
            views(items@)
        },
{
    if min.place <= 0 {
        return items;
    }
    let ghost all = views(items@);
    let mut out: Vec<ContentItem> = Vec::new();
    let mut i: usize = 0;
    assert(views(out@) =~= seq![]);
    while i < items.len()
        invariant
            i <= items@.len(),
            all == views(items@),
            views(out@) == good_items(all.take(i as int), *qualities, min),
        decreases items.len() - i,
    {
        proof {
            assert(all.take(i + 1).drop_last() =~= all.take(i as int));
            assert(all.take(i + 1).last() == items@[i as int]@);
        }
        let q: Score = match qualities.get(&items[i].source_id) {
            Some(q) => q,
            None => Score { place: UNREGISTERED_QUALITY },
        };
        if !q.less(min) {
            push_item(&mut out, items[i].clone());
        }
        i = i + 1;
    }
    assert(all.take(i as int) =~= all);
    out
}

/// Why there is no new briefing.
#[derive(Clone, Copy, Debug, PartialEq, Eq, Structural)]
pub enum NoBriefing {
    /// There is one for the day already.
    AlreadyThere,
    /// Nothing is new.
    NothingNew,
}

/// Whether there is something to brief on; otherwise why not.
pub fn check_fresh(fresh: &Vec<ContentItem>, briefing_exists: bool) -> (r: Result<(), NoBriefing>)
    ensures
        match r {
            Ok(_) => fresh@.len() > 0,
            Err(NoBriefing::AlreadyThere) => fresh@.len() == 0 && briefing_exists,
            Err(NoBriefing::NothingNew) => fresh@.len() == 0 && !briefing_exists,
        },
{
    if fresh.len() > 0 {
        Ok(())
    } else if briefing_exists {
        Err(NoBriefing::AlreadyThere)
    } else {
        Err(NoBriefing::NothingNew)
    }
}

// ---------------------------------------------------------------------------
// The briefing
// ---------------------------------------------------------------------------

/// How many items of one source a briefing of `n` items takes before the others had
/// their turn: three fifths, one at least.
pub open spec fn share_of(n: nat) -> int {
    if n * 3 / 5 == 0 {
        1int
    } else {
        (n * 3 / 5) as int
    }
}

/// How many items one source may have among `top_n`: three fifths of them,
/// rounded down, but at least one.
pub fn max_per_source(top_n: usize) -> (r: usize)
    ensures
        r >= 1,
        r == 1 || r * 5 <= top_n * 3,
        (r + 1) * 5 > top_n * 3,
        r == share_of(top_n as nat),
        r == if top_n * 3 / 5 == 0 {
            1int
        } else {
            top_n * 3 / 5
        },
{
    let n: u128 = top_n as u128 * 3 / 5;
    if n == 0 {
        1
    } else {
        n as usize
    }
}

/// A briefing before the synthesis: the picked items, and the day.
pub open spec fn started(
    ranked: Seq<ItemView>,
    cosines: Seq<Vec<Score>>,
    top_n: usize,
    max: usize,
    date: Seq<char>,
) -> BriefingView {
    BriefingView { date, tldr: seq![], sections: seq![main_section(picked(ranked, cosines, top_n, max))] }
}

/// Starts a briefing with the best of the ranked items.
pub fn start_briefing(
    ranked: Vec<ContentItem>,
    cosines: &Vec<Vec<Score>>,
    top_n: usize,
    max: usize,
    date: &str,
) -> (r: Briefing)
    requires
        is_table(cosines@, ranked@.len()),
    ensures
        r@ == started(views(ranked@), cosines@, top_n, max, date@),
{
    let mut b = curate(ranked, cosines, top_n, max);
    b.date = date.to_string();
    b
}

/// The ranked items that were not picked, in order.
pub open spec fn leftover(ranked: Seq<ItemView>, chosen: Seq<ItemView>) -> Seq<ItemView>
    decreases ranked.len(),
{
    if ranked.len() == 0 {
        seq![]
    } else {
        let before = leftover(ranked.drop_last(), chosen);
        if has_id(chosen, ranked.last().id) {
            before
        } else {
            before.push(ranked.last())
        }
    }
}

/// Whether one of the items has the given identifier.
fn id_shown(items: &Vec<&ContentItem>, id: &str) -> (r: bool)
    ensures
        r == has_id(views(items@), id@),
{
    let mut i: usize = 0;
    while i < items.len()
        invariant
            i <= items@.len(),
            forall|k: int| 0 <= k < i ==> (#[trigger] views(items@)[k]).id != id@,
        decreases items.len() - i,
    {
        if same(&items[i].id, id) {
            assert(views(items@)[i as int].id == id@);
            return true;
        }
        i = i + 1;
    }
    false
}

/// Whether `w` is a wildcard: the first ranked item that was not picked and
/// whose source has no pick, or else the first item that was not picked.
pub open spec fn is_choice(ranked: Seq<ItemView>, chosen: Seq<ItemView>, w: ItemView) -> bool {
    exists|i: int| #[trigger]
        is_wildcard(chosen + leftover(ranked, chosen), chosen.len() as int, i) && w == (chosen + leftover(
            ranked,
            chosen,
        ))[i]
}

/// Chooses the wildcard among the ranked items that the briefing does not show.
pub fn choose_wildcard(b: &Briefing, ranked: &Vec<ContentItem>) -> (r: Option<ContentItem>)
    ensures
        match r {
            Some(w) => is_choice(views(ranked@), shown_items(b@.sections), w@),
            None => leftover(views(ranked@), shown_items(b@.sections)).len() == 0,
        },
{
    let shown = list_items(b);
    let ghost chosen = views(shown@);
    let ghost all = views(ranked@);
    let mut line: Vec<ContentItem> = Vec::new();
    let mut i: usize = 0;
    assert(views(line@) =~= chosen.take(0));
    while i < shown.len()
        invariant
            i <= shown@.len(),
            chosen == views(shown@),
            views(line@) == chosen.take(i as int),
        decreases shown.len() - i,
    {
        push_item(&mut line, shown[i].clone());
        assert(chosen.take(i + 1) =~= chosen.take(i as int).push(chosen[i as int]));
        i = i + 1;
    }
    assert(chosen.take(i as int) =~= chosen);
    let n: usize = shown.len();
    let mut k: usize = 0;
    assert(chosen + leftover(all.take(0), chosen) =~= chosen);
    while k < ranked.len()
        invariant
            k <= ranked@.len(),
            chosen == views(shown@),
            all == views(ranked@),
            views(line@) == chosen + leftover(all.take(k as int), chosen),
        decreases ranked.len() - k,
    {
        let ghost before = leftover(all.take(k as int), chosen);
        proof {
            assert(all.take(k + 1).drop_last() =~= all.take(k as int));
            assert(all.take(k + 1).last() == ranked@[k as int]@);
        }
        if !id_shown(&shown, &ranked[k].id) {
            push_item(&mut line, ranked[k].clone());
            assert((chosen + before).push(all[k as int]) =~= chosen + before.push(all[k as int]));
        }
        k = k + 1;
    }
    assert(all.take(k as int) =~= all);
    assert(views(line@).len() == line@.len());
    pick_wildcard(&line, n)
}

/// What was left over was not picked.
proof fn lemma_leftover(ranked: Seq<ItemView>, chosen: Seq<ItemView>, k: int)
    requires
        0 <= k < leftover(ranked, chosen).len(),
    ensures
        !has_id(chosen, leftover(ranked, chosen)[k].id),
        ranked.contains(leftover(ranked, chosen)[k]),
    decreases ranked.len(),
{
    let before = leftover(ranked.drop_last(), chosen);
    if k < before.len() {
        lemma_leftover(ranked.drop_last(), chosen, k);
        let m = choose|m: int| 0 <= m < ranked.drop_last().len() && ranked.drop_last()[m] == before[k];
        assert(ranked[m] == before[k]);
    } else {
        assert(ranked[ranked.len() - 1] == leftover(ranked, chosen)[k]);
    }
}

/// The wildcard is a real item beyond the main selection.
pub proof fn wildcard_is_new(ranked: Seq<ItemView>, chosen: Seq<ItemView>, w: ItemView)
    requires
        is_choice(ranked, chosen, w),
    ensures
        ranked.contains(w),
        !has_id(chosen, w.id),
{
    let line = chosen + leftover(ranked, chosen);
    let i = choose|i: int| #[trigger] is_wildcard(line, chosen.len() as int, i) && w == line[i];
    assert(w == leftover(ranked, chosen)[i - chosen.len()]);
    lemma_leftover(ranked, chosen, i - chosen.len());
}

/// A briefing with the wildcard in a section of its own; unchanged where there is none.
pub open spec fn with_wildcard(b: BriefingView, wildcard: Option<ItemView>) -> BriefingView {
    match wildcard {
        Some(w) => BriefingView {
            sections: b.sections.push(SectionView { id: WILDCARD_ID@, title: WILDCARD_TITLE@, items: seq![w] }),
            ..b
        },
        None => b,
    }
}

/// Adds the wildcard.
pub fn add_wildcard(b: &mut Briefing, wildcard: Option<ContentItem>)
    ensures
        final(b)@ == with_wildcard(old(b)@, crate::synthesis::opt_item(wildcard)),
{
    match wildcard {
        Some(w) => {
            let ghost put = w@;
            let mut items: Vec<ContentItem> = Vec::new();
            push_item(&mut items, w);
            assert(views(items@) =~= seq![put]);
            push_section(
                &mut b.sections,
                BriefingSection { id: WILDCARD_ID.to_string(), title: WILDCARD_TITLE.to_string(), items },
            );
        },
        None => {},
    }
}

// ---------------------------------------------------------------------------
// The assembly
// ---------------------------------------------------------------------------

/// How much goes into a briefing.
#[derive(Clone, Copy, Debug, PartialEq, Eq, Structural)]
pub struct AssembleOpts {
    /// How many items are enriched.
    pub max_items_enrich: usize,
    /// How many items are picked.
    pub top_n: usize,
    /// How many of them may come from one source.
    pub max_per_source: usize,
}

/// Where the assembly stands.
#[derive(Clone, Copy, Debug, PartialEq, Eq, Structural)]
pub enum Stage {
    /// The items wait for their scores.
    Ranking,
    /// The ranked items wait for their embeddings.
    Embedding,
    /// The best items wait for what a model finds out about them.
    Enriching,
    /// The items, with their topics, wait for their scores again.
    Reranking,
    /// The ranked items wait for the cosines of all pairs, to be picked from.
    Picking,
    /// The picked items wait for the three things of the day.
    Summing,
    /// The briefing waits for its counterpoint.
    Countering,
    /// The briefing is complete.
    Complete,
}

/// A briefing in the making. The items are ranked, freed of repetitions, the
/// best of them enriched; then they are ranked again, picked, and completed with
/// what the models write and with a wildcard.
#[derive(Debug)]
pub struct Assembly {
    pub items: Vec<ContentItem>,
    pub stage: Stage,
    pub opts: AssembleOpts,
    /// Whether repetitions are found by their embeddings.
    pub semantic: bool,
    pub briefing: Briefing,
}

/// A briefing with nothing but its day.
pub open spec fn blank(date: Seq<char>) -> BriefingView {
    BriefingView { date, tldr: seq![], sections: seq![] }
}

/// The requests for the enrichment of the first items.
pub open spec fn enrich_requests_for(items: Seq<ItemView>, max: nat) -> Seq<CompletionView> {
    Seq::new(first_of(items, max).len(), |i: int| enrich_request_for(items[i]))
}

/// The items with what a model found out about the first of them.
pub open spec fn all_enriched(items: Seq<ItemView>, found: Seq<Option<Enrichment>>) -> Seq<ItemView> {
    Seq::new(
        items.len(),
        |i: int|
            if i < found.len() {
                enriched(items[i], found[i])
            } else {
                items[i]
            },
    )
}

/// The items with their embeddings.
pub open spec fn all_embedded(items: Seq<ItemView>, embeddings: Seq<Option<Vec<u32>>>) -> Seq<ItemView> {
    Seq::new(items.len(), |i: int| ItemView { embedding: opt_components(embeddings[i]), ..items[i] })
}

/// The briefing with its counterpoint and its wildcard. What the model failed to
/// write is missing; the briefing is made all the same.
pub open spec fn is_completed(
    before: BriefingView,
    ranked: Seq<ItemView>,
    counterpoint_reply: Option<Seq<char>>,
    after: BriefingView,
) -> bool {
    let written = with_counterpoint(before, counterpoint_reply);
    let chosen = shown_items(before.sections);
    if leftover(ranked, chosen).len() == 0 {
        after == written
    } else {
        exists|w: ItemView| #[trigger] is_choice(ranked, chosen, w) && after == with_wildcard(written, Some(w))
    }
}

/// The stage behind a scoring: the first leads on to the models, the second to the picks.
pub open spec fn after_scoring(stage: Stage, semantic: bool) -> Stage {
    if stage == Stage::Reranking {
        Stage::Picking
    } else if semantic {
        Stage::Embedding
    } else {
        Stage::Enriching
    }
}

impl Assembly {
    /// Begins with the fresh items, newest first.
    pub fn start(fresh: &Vec<ContentItem>, opts: AssembleOpts, semantic: bool, date: &str) -> (r: Assembly)
        ensures
            is_newest_first(views(fresh@), views(r.items@)),
            r.stage == Stage::Ranking,
            r.opts == opts,
            r.semantic == semantic,
            r.briefing@ == blank(date@),
    {
        let tldr: Vec<String> = Vec::new();
        let sections: Vec<BriefingSection> = Vec::new();
        assert(views(tldr@) =~= seq![] && views(sections@) =~= seq![]);
        Assembly {
            items: newest_first(fresh),
            stage: Stage::Ranking,
            opts,
            semantic,
            briefing: Briefing { date: date.to_string(), tldr, sections },
        }
    }

    /// The weights that bear on each item. The score of an item is the product of
    /// its learned score and of its place among the items, which falls evenly
    /// from one for the newest.
    pub fn weigh(&self, cfg: &Config) -> (r: Vec<ItemWeights>)
        ensures
            r@.len() == self.items@.len(),
            forall|i: int|
                0 <= i < r@.len() ==> are_item_weights(
                    #[trigger] r@[i],
                    *cfg,
                    self.items@[i]@.source_id,
                    self.items@[i]@.topics,
                ),
    {
        let mut out: Vec<ItemWeights> = Vec::new();
        let mut i: usize = 0;
        while i < self.items.len()
            invariant
                i <= self.items@.len(),
                out@.len() == i,
                forall|k: int|
                    0 <= k < i ==> are_item_weights(
                        #[trigger] out@[k],
                        *cfg,
                        self.items@[k]@.source_id,
                        self.items@[k]@.topics,
                    ),
            decreases self.items.len() - i,
        {
            out.push(cfg.item_weights(&self.items[i].source_id, &self.items[i].topics));
            i = i + 1;
        }
        out
    }

    /// Takes in the scores of the items.
    pub fn scored(&mut self, scores: &Vec<Score>)
        requires
            old(self).stage == Stage::Ranking || old(self).stage == Stage::Reranking,
            scores@.len() == old(self).items@.len(),
        ensures
            is_ranked(views(old(self).items@), scores@, views(final(self).items@)),
            final(self).stage == after_scoring(old(self).stage, old(self).semantic),
            final(self).stage == if old(self).stage == Stage::Reranking {
                Stage::Picking
            } else if old(self).semantic {
                Stage::Embedding
            } else {
                Stage::Enriching
            },
            final(self).opts == old(self).opts,
            final(self).semantic == old(self).semantic,
            final(self).briefing@ == old(self).briefing@,
    {
        self.items = rank(&self.items, scores);
        self.stage = match self.stage {
            Stage::Reranking => Stage::Picking,
            _ => {
                if self.semantic {
                    Stage::Embedding
                } else {
                    Stage::Enriching
                }
            },
        };
    }

    /// Takes in the cosines of all pairs of the ranked items, and picks the best.
    pub fn compared(&mut self, cosines: &Vec<Vec<Score>>)
        requires
            old(self).stage == Stage::Picking,
            is_table(cosines@, old(self).items@.len()),
        ensures
            final(self).briefing@ == started(
                views(old(self).items@),
                cosines@,
                old(self).opts.top_n,
                old(self).opts.max_per_source,
                old(self).briefing@.date,
            ),
            final(self).stage == Stage::Summing,
            final(self).items == old(self).items,
            final(self).opts == old(self).opts,
            final(self).semantic == old(self).semantic,
    {
        let ranked = clone_items(&self.items);
        assert(ranked@.len() == views(ranked@).len() == views(self.items@).len());
        self.briefing = start_briefing(
            ranked,
            cosines,
            self.opts.top_n,
            self.opts.max_per_source,
            &self.briefing.date,
        );
        self.stage = Stage::Summing;
    }

    /// Takes in the embeddings and the cosines of all pairs: later items of the
    /// same story fall out.
    pub fn embedded(&mut self, embeddings: Vec<Option<Vec<u32>>>, cosines: &Vec<Vec<Score>>)
        requires
            old(self).stage == Stage::Embedding,
            embeddings@.len() == old(self).items@.len(),
            is_table(cosines@, old(self).items@.len()),
        ensures
            ({
                let items = all_embedded(views(old(self).items@), embeddings@);
                views(final(self).items@) == at_places(
                    items,
                    kept_places(items, cosines@, Score { place: DEDUP_SIMILARITY }, items.len()),
                )
            }),
            final(self).stage == Stage::Enriching,
            final(self).opts == old(self).opts,
            final(self).semantic == old(self).semantic,
            final(self).briefing@ == old(self).briefing@,
    {
        let ghost before = views(self.items@);
        let copy = clone_items(&self.items);
        assert(copy@.len() == views(copy@).len() == before.len());
        let items = with_embeddings(copy, embeddings);
        assert(views(items@) =~= all_embedded(before, embeddings@)) by {
            assert(items@.len() == before.len());
            assert forall|i: int| 0 <= i < items@.len() implies views(items@)[i] == all_embedded(before, embeddings@)[i] by {
                assert(items@[i]@ == views(items@)[i]);
                assert(views(copy@)[i] == before[i]);
            }
        }
        self.items = collapse_near_duplicates(&items, cosines, Score { place: DEDUP_SIMILARITY });
        self.stage = Stage::Enriching;
    }

    /// Goes on without embeddings.
    pub fn embedding_failed(&mut self)
        requires
            old(self).stage == Stage::Embedding,
        ensures
            final(self).items == old(self).items,
            final(self).stage == Stage::Enriching,
            final(self).opts == old(self).opts,
            final(self).semantic == old(self).semantic,
            final(self).briefing@ == old(self).briefing@,
    {
        self.stage = Stage::Enriching;
    }

    /// What is asked about the first items.
    pub fn enrich_requests(&self) -> (r: Vec<Completion>)
        ensures
            views(r@) == enrich_requests_for(views(self.items@), self.opts.max_items_enrich as nat),
            r@.len() <= self.items@.len(),
    {
        let n: usize = enrich_count(&self.items, self.opts.max_items_enrich);
        let ghost all = enrich_requests_for(views(self.items@), self.opts.max_items_enrich as nat);
        let mut out: Vec<Completion> = Vec::new();
        let mut i: usize = 0;
        while i < n
            invariant
                i <= n <= self.items@.len(),
                n == all.len(),
                all == enrich_requests_for(views(self.items@), self.opts.max_items_enrich as nat),
                out@.len() == i,
                forall|k: int| 0 <= k < i ==> (#[trigger] out@[k])@ == all[k],
            decreases n - i,
        {
            out.push(enrich_request(&self.items[i]));
            i = i + 1;
        }
        assert(views(out@) =~= all);
        out
    }

    /// Takes in what was found out about the first items. Then the items are
    /// newest first again, for their second ranking.
    pub fn enriched(&mut self, found: Vec<Option<Enrichment>>)
        requires
            old(self).stage == Stage::Enriching,
            found@.len() <= old(self).items@.len(),
        ensures
            is_newest_first(all_enriched(views(old(self).items@), found@), views(final(self).items@)),
            final(self).stage == Stage::Reranking,
            final(self).opts == old(self).opts,
            final(self).semantic == old(self).semantic,
            final(self).briefing@ == old(self).briefing@,
    {
        let ghost before = views(self.items@);
        let copy = clone_items(&self.items);
        let ghost same_items = views(copy@);
        let items = enrich(copy, found);
        assert(views(items@) =~= all_enriched(before, found@)) by {
            assert forall|i: int| 0 <= i < items@.len() implies views(items@)[i] == all_enriched(before, found@)[i] by {
                assert(items@[i]@ == views(items@)[i]);
                assert(same_items[i] == before[i]);
            }
        }
        self.items = newest_first(&items);
        self.stage = Stage::Reranking;
    }

    /// Takes in the reply to `tldr_request` for the briefing; none where the model failed.
    pub fn summed(&mut self, reply: &Option<String>)
        requires
            old(self).stage == Stage::Summing,
        ensures
            final(self).briefing@ == with_tldr(old(self).briefing@, opt_text(*reply)),
            final(self).stage == Stage::Countering,
            final(self).items == old(self).items,
            final(self).opts == old(self).opts,
            final(self).semantic == old(self).semantic,
    {
        set_tldr(&mut self.briefing, reply);
        self.stage = Stage::Countering;
    }

    /// Takes in the reply to `counterpoint_request` for the briefing, none where
    /// the model failed, and adds the wildcard.
    pub fn countered(&mut self, reply: &Option<String>)
        requires
            old(self).stage == Stage::Countering,
        ensures
            is_completed(old(self).briefing@, views(old(self).items@), opt_text(*reply), final(self).briefing@),
            final(self).stage == Stage::Complete,
            final(self).items == old(self).items,
            final(self).opts == old(self).opts,
            final(self).semantic == old(self).semantic,
    {
        let wildcard = choose_wildcard(&self.briefing, &self.items);
        proof {
            if wildcard is Some {
                lemma_choice_leftover(
                    views(self.items@),
                    shown_items(self.briefing@.sections),
                    wildcard->0@,
                );
            }
        }
        add_counterpoint(&mut self.briefing, reply);
        add_wildcard(&mut self.briefing, wildcard);
        self.stage = Stage::Complete;
    }
}

/// Where there is a wildcard, something was left over.
proof fn lemma_choice_leftover(ranked: Seq<ItemView>, chosen: Seq<ItemView>, w: ItemView)
    requires
        is_choice(ranked, chosen, w),
    ensures
        leftover(ranked, chosen).len() > 0,
{
    let line = chosen + leftover(ranked, chosen);
    let i = choose|i: int| #[trigger] is_wildcard(line, chosen.len() as int, i) && w == line[i];
    assert(i < line.len());
}

/// The two sections against the bubble cannot be switched off: a complete
/// briefing has a counterpoint where the model wrote one, and a wildcard where
/// an item was left over.
pub proof fn complete_briefing_leaves_the_bubble(
    before: BriefingView,
    ranked: Seq<ItemView>,
    reply: Option<Seq<char>>,
    after: BriefingView,
)
    requires
        is_completed(before, ranked, reply, after),
    ensures
        reply is Some && counterpoint_in(reply->0, before.date) is Some ==> has_section(
            after.sections,
            COUNTERPOINT_ID@,
        ),
        leftover(ranked, shown_items(before.sections)).len() > 0 ==> has_section(after.sections, WILDCARD_ID@),
{
    let written = with_counterpoint(before, reply);
    let n = before.sections.len() as int;
    if reply is Some && counterpoint_in(reply->0, before.date) is Some {
        assert(written.sections[n].id == COUNTERPOINT_ID@);
        assert(after.sections[n].id == COUNTERPOINT_ID@);
    }
    if leftover(ranked, shown_items(before.sections)).len() > 0 {
        assert(after.sections[written.sections.len() as int].id == WILDCARD_ID@);
    }
}

// ---------------------------------------------------------------------------
// What becomes of it
// ---------------------------------------------------------------------------

/// A step at the end of the run.
#[derive(Debug)]
pub enum BriefStep {
    /// The briefing is saved with the items that it shows.
    Save(BriefingRows),
    /// An item that the briefing does not show is noted as seen.
    Mark(ContentRow),
    /// The briefing is written to a file.
    Write { path: String, text: String },
    /// The briefing is sent.
    Push(Vec<Message>),
}

/// Whether a step saves the briefing.
pub open spec fn saves(s: BriefStep, b: BriefingView, config_version: Seq<char>) -> bool {
    &&& s is Save
    &&& s->Save_0.date@ == b.date
    &&& s->Save_0.config_version@ == config_version
    &&& s->Save_0.tldr@ == texts_json(b.tldr)
    &&& views(s->Save_0.items@) == Seq::new(shown_items(b.sections).len(), |i: int| row_of(shown_items(b.sections)[i]))
    &&& views(s->Save_0.places@) == places(b.sections)
}

/// Whether a step writes the briefing.
pub open spec fn writes(s: BriefStep, b: BriefingView) -> bool {
    &&& s is Write
    &&& s->path@ == "out/briefing-"@ + b.date + ".md"@
    &&& s->text@ == rendered(b)
}

/// The steps at the end of a run, in the order in which they are taken: first
/// the briefing is saved; only then the items that it does not show are noted as
/// seen, unless the briefing was made anew; then it is written, and sent if that is wanted.
pub open spec fn are_final_steps(
    steps: Seq<BriefStep>,
    b: BriefingView,
    fresh: Seq<ItemView>,
    force: bool,
    push: bool,
    config_version: Seq<char>,
) -> bool {
    let marked = if force {
        Seq::<ItemView>::empty()
    } else {
        leftover(fresh, shown_items(b.sections))
    };
    let n = marked.len();
    &&& steps.len() == n + 2 + (if push {
        1int
    } else {
        0int
    })
    &&& saves(steps[0], b, config_version)
    &&& forall|i: int|
        0 < i <= n ==> (#[trigger] steps[i]) is Mark && steps[i]->Mark_0@ == row_of(marked[i - 1])
    &&& writes(steps[n as int + 1], b)
    &&& push ==> steps[n as int + 2] is Push && views(steps[n as int + 2]->Push_0@) == messages(b)
}

/// Plans the end of a run.
pub fn final_steps(b: &Briefing, fresh: &Vec<ContentItem>, force: bool, push: bool, config_version: &str) -> (r: Vec<
    BriefStep,
>)
    requires
        shown_items(b@.sections).len() <= i64::MAX,
    ensures
        are_final_steps(r@, b@, views(fresh@), force, push, config_version@),
{
    let ghost all = views(fresh@);
    let shown = list_items(b);
    let ghost chosen = views(shown@);
    let mut steps: Vec<BriefStep> = Vec::new();
    steps.push(BriefStep::Save(save_briefing(b, config_version)));
    let ghost marked = if force {
        Seq::<ItemView>::empty()
    } else {
        leftover(all, chosen)
    };
    if !force {
        let mut i: usize = 0;
        while i < fresh.len()
            invariant
                i <= fresh@.len(),
                all == views(fresh@),
                chosen == views(shown@),
                steps@.len() == leftover(all.take(i as int), chosen).len() + 1,
                saves(steps@[0], b@, config_version@),
                forall|k: int|
                    0 < k < steps@.len() ==> (#[trigger] steps@[k]) is Mark && steps@[k]->Mark_0@ == row_of(
                        leftover(all.take(i as int), chosen)[k - 1],
                    ),
            decreases fresh.len() - i,
        {
            proof {
                assert(all.take(i + 1).drop_last() =~= all.take(i as int));
                assert(all.take(i + 1).last() == fresh@[i as int]@);
            }
            if !id_shown(&shown, &fresh[i].id) {
                steps.push(BriefStep::Mark(item_row(&fresh[i])));
            }
            i = i + 1;
        }
        assert(all.take(i as int) =~= all);
    }
    steps.push(BriefStep::Write { path: output_path(&b.date), text: render(b) });
    if push {
        steps.push(BriefStep::Push(send_briefing(b)));
    }
    steps
}

/// What is left over and what was picked make up all items.
proof fn lemma_covered(items: Seq<ItemView>, shown: Seq<ItemView>, i: int)
    requires
        0 <= i < items.len(),
        !has_id(shown, items[i].id),
    ensures
        leftover(items, shown).contains(items[i]),
    decreases items.len(),
{
    let before = leftover(items.drop_last(), shown);
    let all = leftover(items, shown);
    if i < items.len() - 1 {
        assert(items.drop_last()[i] == items[i]);
        lemma_covered(items.drop_last(), shown, i);
        let k = choose|k: int| 0 <= k < before.len() && before[k] == items[i];
        assert(all[k] == items[i]);
    } else {
        assert(all[before.len() as int] == items[i]);
    }
}

/// After a run that was not forced, every fresh item has been saved with the
/// briefing or noted as seen: it does not come up again.
pub proof fn fresh_items_are_seen(
    steps: Seq<BriefStep>,
    b: BriefingView,
    fresh: Seq<ItemView>,
    push: bool,
    config_version: Seq<char>,
    i: int,
)
    requires
        are_final_steps(steps, b, fresh, false, push, config_version),
        0 <= i < fresh.len(),
    ensures
        has_id(shown_items(b.sections), fresh[i].id) || exists|k: int|
            0 < k < steps.len() && (#[trigger] steps[k]) is Mark && steps[k]->Mark_0@.id == fresh[i].id,
{
    let shown = shown_items(b.sections);
    if !has_id(shown, fresh[i].id) {
        lemma_covered(fresh, shown, i);
        let m = choose|m: int| 0 <= m < leftover(fresh, shown).len() && leftover(fresh, shown)[m] == fresh[i];
        assert(steps[m + 1] is Mark && steps[m + 1]->Mark_0@ == row_of(leftover(fresh, shown)[m]));
    }
}

/// Nothing is noted as seen, written or sent before the briefing is saved, and
/// it is saved once.
pub proof fn saving_comes_first(
    steps: Seq<BriefStep>,
    b: BriefingView,
    fresh: Seq<ItemView>,
    force: bool,
    push: bool,
    config_version: Seq<char>,
)
    requires
        are_final_steps(steps, b, fresh, force, push, config_version),
    ensures
        steps[0] is Save,
        forall|k: int| 0 < k < steps.len() ==> !((#[trigger] steps[k]) is Save),
        force ==> forall|k: int| 0 <= k < steps.len() ==> !((#[trigger] steps[k]) is Mark),
{
    let marked = if force {
        Seq::<ItemView>::empty()
    } else {
        leftover(fresh, shown_items(b.sections))
    };
    let n = marked.len() as int;
    assert forall|k: int| 0 < k < steps.len() implies !((#[trigger] steps[k]) is Save) by {
        if k <= n {
            assert(steps[k] is Mark);
        } else if k == n + 1 {
            assert(writes(steps[n + 1], b));
        } else {
            assert(k == n + 2);
        }
    }
}

// ---------------------------------------------------------------------------
// What makes a briefing
// ---------------------------------------------------------------------------

/// The items of good sources stay, in order: those of the least quality asked for or
/// of more. A source that is not listed counts as one of quality 1.0.
pub proof fn good_sources_stay(items: Seq<ItemView>, qualities: WeightTable, min: Score)
    ensures
        good_items(items, qualities, min) == items.filter(
            |it: ItemView|
                (qualities.weight(it.source_id) is Some && qualities.weight(it.source_id)->0.place >= min.place) || (
                qualities.weight(it.source_id) is None && 0x3ff0_0000_0000_0000 >= min.place),
        ),
    decreases items.len(),
{
    reveal(Seq::filter);
    if items.len() > 0 {
        good_sources_stay(items.drop_last(), qualities, min);
    }
}

/// What is left over is every item, in order, whose identifier no chosen item has.
pub proof fn unchosen_items_are_left(ranked: Seq<ItemView>, chosen: Seq<ItemView>)
    ensures
        leftover(ranked, chosen) == ranked.filter(
            |it: ItemView| !(exists|k: int| 0 <= k < chosen.len() && (#[trigger] chosen[k]).id == it.id),
        ),
    decreases ranked.len(),
{
    reveal(Seq::filter);
    if ranked.len() > 0 {
        unchosen_items_are_left(ranked.drop_last(), chosen);
        let id = ranked.last().id;
        assert(has_id(chosen, id) <==> exists|k: int| 0 <= k < chosen.len() && (#[trigger] chosen[k]).id == id);
    }
}

/// The wildcard is an item that is not shown. If an item that is not shown has a
/// source that no shown item has, then so has the wildcard.
pub proof fn wildcard_brings_a_new_source(ranked: Seq<ItemView>, chosen: Seq<ItemView>, w: ItemView, k: int)
    requires
        is_choice(ranked, chosen, w),
        0 <= k < ranked.len(),
        forall|j: int| 0 <= j < chosen.len() ==> (#[trigger] chosen[j]).id != ranked[k].id,
        forall|j: int| 0 <= j < chosen.len() ==> (#[trigger] chosen[j]).source_id != ranked[k].source_id,
    ensures
        forall|j: int| 0 <= j < chosen.len() ==> (#[trigger] chosen[j]).id != w.id,
        forall|j: int| 0 <= j < chosen.len() ==> (#[trigger] chosen[j]).source_id != w.source_id,
        ranked.contains(w),
{
    let rest = leftover(ranked, chosen);
    let line = chosen + rest;
    let n = chosen.len() as int;
    let i = choose|i: int| #[trigger] is_wildcard(line, n, i) && w == line[i];
    wildcard_is_new(ranked, chosen, w);
    assert(!has_id(chosen, ranked[k].id));
    lemma_covered(ranked, chosen, k);
    let m = choose|m: int| 0 <= m < rest.len() && rest[m] == ranked[k];
    assert(line[n + m] == ranked[k]);
    wildcard_widens_the_sources(line, n, i);
    assert(forall|j: int| 0 <= j < n ==> (#[trigger] line[j]) == chosen[j]);
    if exists|j: int| 0 <= j < n && (#[trigger] line[j]).source_id == line[i].source_id {
        assert(exists|j: int| 0 <= j < n && (#[trigger] line[j]).source_id == line[n + m].source_id);
    }
    assert forall|j: int| 0 <= j < chosen.len() implies (#[trigger] chosen[j]).source_id != w.source_id by {
        assert(line[j].source_id == chosen[j].source_id);
    }
    assert forall|j: int| 0 <= j < chosen.len() implies (#[trigger] chosen[j]).id != w.id by {
        if chosen[j].id == w.id {
            assert(has_id(chosen, w.id));
        }
    }
}

/// The first `max` items are put to a model, in order, and each reply goes to its own
/// item; the others stay as they are.
pub proof fn replies_go_to_their_items(
    items: Seq<ItemView>,
    max: nat,
    found: Seq<Option<Enrichment>>,
    embeddings: Seq<Option<Vec<u32>>>,
    i: int,
)
    requires
        0 <= i < items.len(),
        embeddings.len() == items.len(),
    ensures
        enrich_requests_for(items, max).len() <= max,
        enrich_requests_for(items, max).len() <= items.len(),
        enrich_requests_for(items, max).len() == max || enrich_requests_for(items, max).len() == items.len(),
        i < max ==> enrich_requests_for(items, max)[i] == enrich_request_for(items[i]),
        all_enriched(items, found).len() == items.len(),
        i < found.len() && found[i] is Some ==> all_enriched(items, found)[i] == (ItemView {
            summary: Some(found[i]->0.summary@),
            topics: views(found[i]->0.topics@),
            ..items[i]
        }),
        i >= found.len() || found[i] is None ==> all_enriched(items, found)[i] == items[i],
        all_embedded(items, embeddings).len() == items.len(),
        embeddings[i] is Some ==> all_embedded(items, embeddings)[i] == (ItemView {
            embedding: Some(embeddings[i]->0@),
            ..items[i]
        }),
        embeddings[i] is None ==> all_embedded(items, embeddings)[i] == (ItemView { embedding: None, ..items[i] }),
{
}

/// Completing a briefing adds to it and takes nothing away: its sections stay in
/// front, its day and its three things stay, and what is shown first stays first.
pub proof fn completing_only_adds(before: BriefingView, ranked: Seq<ItemView>, reply: Option<Seq<char>>, after: BriefingView)
    requires
        is_completed(before, ranked, reply, after),
    ensures
        after.date == before.date,
        after.tldr == before.tldr,
        before.sections.is_prefix_of(after.sections),
        after.sections.len() <= before.sections.len() + 2,
        shown_items(before.sections).is_prefix_of(shown_items(after.sections)),
{
    let n = before.sections.len() as int;
    assert(after.sections.take(n) =~= before.sections);
    let rest = after.sections.skip(n);
    assert(before.sections + rest =~= after.sections);
    if rest.len() > 0 {
        sections_show_their_items(before.sections, rest, rest[0]);
        let shown = shown_items(before.sections);
        assert(shown_items(after.sections).take(shown.len() as int) =~= shown);
    } else {
        assert(after.sections =~= before.sections);
    }
}

/// A briefing starts with one section: the best items, no more than asked for.
pub proof fn briefing_starts_with_the_best(
    ranked: Seq<ItemView>,
    cosines: Seq<Vec<Score>>,
    top_n: usize,
    max: usize,
    date: Seq<char>,
)
    ensures
        started(ranked, cosines, top_n, max, date).date == date,
        started(ranked, cosines, top_n, max, date).tldr.len() == 0,
        started(ranked, cosines, top_n, max, date).sections.len() == 1,
        shown_items(started(ranked, cosines, top_n, max, date).sections) == picked(ranked, cosines, top_n, max),
        picked(ranked, cosines, top_n, max).len() <= top_n,
{
    let s = main_section(picked(ranked, cosines, top_n, max));
    sections_show_their_items(seq![], seq![], s);
}

/// Behind what is saved and marked, the briefing is written under its day, as it is
/// rendered; where it is to be sent, its messages are sent last. Only fresh items that
/// it does not show are marked, and each of them once, in order.
pub proof fn briefing_is_written_and_sent(
    steps: Seq<BriefStep>,
    b: BriefingView,
    fresh: Seq<ItemView>,
    force: bool,
    push: bool,
    config_version: Seq<char>,
    k: int,
)
    requires
        are_final_steps(steps, b, fresh, force, push, config_version),
        0 <= k < steps.len(),
    ensures
        push ==> steps.len() >= 3 && steps.last() is Push && views(steps.last()->Push_0@) == messages(b),
        !push ==> steps.last() is Write,
        steps[k] is Push ==> push && k == steps.len() - 1,
        steps[k] is Write ==> steps[k]->path@ == "out/briefing-"@ + b.date + ".md"@ && steps[k]->text@ == rendered(b),
        steps[k] is Write <==> k == steps.len() - (if push {
            2int
        } else {
            1int
        }),
        steps[k] is Save <==> k == 0,
        steps[k] is Save ==> steps[k]->Save_0.date@ == b.date && steps[k]->Save_0.config_version@ == config_version
            && steps[k]->Save_0.items@.len() == shown_items(b.sections).len(),
        steps[k] is Mark ==> !force && exists|i: int|
            0 <= i < fresh.len() && row_of(#[trigger] fresh[i]) == steps[k]->Mark_0@ && !has_id(
                shown_items(b.sections),
                fresh[i].id,
            ),
        !force ==> steps.filter(|s: BriefStep| s is Mark).len() == leftover(fresh, shown_items(b.sections)).len(),
{
    let shown = shown_items(b.sections);
    let marked = if force {
        Seq::<ItemView>::empty()
    } else {
        leftover(fresh, shown)
    };
    let n = marked.len() as int;
    assert(saves(steps[0], b, config_version));
    assert(writes(steps[n + 1], b));
    if 0 < k <= n {
        assert(steps[k] is Mark && steps[k]->Mark_0@ == row_of(marked[k - 1]));
        lemma_leftover(fresh, shown, k - 1);
        let i = choose|i: int| 0 <= i < fresh.len() && fresh[i] == marked[k - 1];
        assert(row_of(fresh[i]) == steps[k]->Mark_0@);
    } else if k == 0 {
        assert(views(steps[0]->Save_0.items@).len() == steps[0]->Save_0.items@.len());
    }
    if !force {
        lemma_marks_counted(steps, n, steps.len() as int);
        assert(steps.take(steps.len() as int) =~= steps);
    }
}

proof fn lemma_marks_counted(steps: Seq<BriefStep>, n: int, m: int)
    requires
        0 <= m <= steps.len(),
        0 <= n < steps.len(),
        forall|k: int| 0 <= k < steps.len() ==> ((#[trigger] steps[k]) is Mark <==> 0 < k <= n),
    ensures
        steps.take(m).filter(|s: BriefStep| s is Mark).len() == if m == 0 {
            0
        } else if m <= n + 1 {
            m - 1
        } else {
            n
        },
    decreases m,
{
    reveal(Seq::filter);
    if m > 0 {
        lemma_marks_counted(steps, n, m - 1);
        assert(steps.take(m).drop_last() =~= steps.take(m - 1));
        assert(steps.take(m).last() == steps[m - 1]);
        assert(steps[m - 1] is Mark <==> 0 < m - 1 <= n);
    }
}

/// No source gets more than three fifths of a briefing at first, unless that is less
/// than one item; and it gets as many as that.
pub proof fn share_is_three_fifths(n: nat)
    ensures
        share_of(n) >= 1,
        share_of(n) > 1 ==> 5 * share_of(n) <= 3 * n,
        5 * (share_of(n) + 1) > 3 * n,
{
}

/// Without a floor every item stays; with one no item of a source below it does, and
/// every item of the others does, in order.
pub proof fn floor_keeps_the_good(items: Seq<ItemView>, qualities: WeightTable, min: Score)
    ensures
        min.place <= 0 ==> above_floor(items, qualities, min) == items,
        min.place > 0 ==> above_floor(items, qualities, min) == items.filter(
            |it: ItemView|
                (qualities.weight(it.source_id) is Some && qualities.weight(it.source_id)->0.place >= min.place) || (
                qualities.weight(it.source_id) is None && 0x3ff0_0000_0000_0000 >= min.place),
        ),
{
    good_sources_stay(items, qualities, min);
}

/// The first scoring comes before the models, which are asked for embeddings only where
/// those are wanted; the second comes before the picks.
pub proof fn second_scoring_comes_before_the_picks(semantic: bool)
    ensures
        after_scoring(Stage::Reranking, semantic) == Stage::Picking,
        after_scoring(Stage::Ranking, true) == Stage::Embedding,
        after_scoring(Stage::Ranking, false) == Stage::Enriching,
{
}

} // verus!
