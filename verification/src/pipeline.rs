//! The selection of the items: removing repetitions, ranking, curating, the wildcard.

use crate::briefing::{
    push_item, push_section, Briefing, BriefingSection, BriefingView, ContentItem, ItemView, SectionView, Timestamp,
};
use crate::score::{order_is_numeric, Score};
use crate::semantic::{
    as_ints, at_places, is_near_kept, is_table, near_any, same_story, DIVERSITY_SIMILARITY,
};
use crate::sorting::{
    arrange, arranged, comes_before, descending_order, is_descending, order_is_unique, sorted_stays,
};
use crate::text::{same, views};
use vstd::prelude::*;

verus! {

// ---------------------------------------------------------------------------
// Removing repetitions
// ---------------------------------------------------------------------------

/// Whether some item of `items` has the given identifier.
pub open spec fn has_id(items: Seq<ItemView>, id: Seq<char>) -> bool {
    exists|i: int| 0 <= i < items.len() && (#[trigger] items[i]).id == id
}

/// The first item of each identifier, in order.
pub open spec fn distinct_items(items: Seq<ItemView>) -> Seq<ItemView>
    decreases items.len(),
{
    if items.len() == 0 {
        seq![]
    } else {
        let kept = distinct_items(items.drop_last());
        if has_id(items.drop_last(), items.last().id) {
            kept
        } else {
            kept.push(items.last())
        }
    }
}

/// Whether one of the first `n` items has the given identifier.
fn id_among(items: &Vec<ContentItem>, n: usize, id: &str) -> (r: bool)
    requires
        n <= items@.len(),
    ensures
        r == has_id(views(items@).take(n as int), id@),
{
    let mut i: usize = 0;
    while i < n
        invariant
            i <= n <= items@.len(),
            forall|j: int| 0 <= j < i ==> (#[trigger] views(items@)[j]).id != id@,
        decreases n - i,
    {
        if same(&items[i].id, id) {
            assert(views(items@).take(n as int)[i as int].id == id@);
            return true;
        }
        i = i + 1;
    }
    assert forall|j: int| 0 <= j < n implies (#[trigger] views(items@).take(n as int)[j]).id != id@ by {
        assert(views(items@)[j].id != id@);
    }
    false
}

/// Keeps the first item of each identifier: feeds repeat items within one batch.
pub fn dedup_batch(items: Vec<ContentItem>) -> (r: Vec<ContentItem>)
    ensures
        views(r@) == distinct_items(views(items@)),
{
    let mut out: Vec<ContentItem> = Vec::new();
    let mut i: usize = 0;
    while i < items.len()
        invariant
            i <= items@.len(),
            views(out@) == distinct_items(views(items@).take(i as int)),
        decreases items.len() - i,
    {
        proof {
            let next = views(items@).take(i + 1);
            assert(next.drop_last() =~= views(items@).take(i as int));
            assert(next.last() == items@[i as int]@);
        }
        if !id_among(&items, i, &items[i].id) {
            push_item(&mut out, items[i].clone());
        }
        i = i + 1;
    }
    assert(views(items@).take(i as int) =~= views(items@));
    out
}

/// What `dedup_batch` keeps: every identifier is kept, none twice, and nothing
/// is kept that was not there.
pub proof fn batch_is_distinct(items: Seq<ItemView>)
    ensures
        forall|i: int, j: int|
            0 <= i < j < distinct_items(items).len() ==> (#[trigger] distinct_items(items)[i]).id
                != (#[trigger] distinct_items(items)[j]).id,
        forall|id: Seq<char>| has_id(distinct_items(items), id) <==> #[trigger] has_id(items, id),
        forall|i: int| 0 <= i < distinct_items(items).len() ==> items.contains(#[trigger] distinct_items(items)[i]),
    decreases items.len(),
{
    if items.len() > 0 {
        let before = items.drop_last();
        let last = items.last();
        let kept = distinct_items(before);
        let all = distinct_items(items);
        batch_is_distinct(before);
        assert forall|id: Seq<char>| has_id(all, id) <==> #[trigger] has_id(items, id) by {
            if has_id(items, id) {
                let k = choose|k: int| 0 <= k < items.len() && (#[trigger] items[k]).id == id;
                if k < before.len() {
                    assert(before[k].id == id);
                    assert(has_id(before, id));
                    let m = choose|m: int| 0 <= m < kept.len() && (#[trigger] kept[m]).id == id;
                    assert(all[m].id == id);
                } else if has_id(before, last.id) {
                    assert(has_id(kept, id));
                } else {
                    assert(all[kept.len() as int].id == id);
                }
            }
            if has_id(all, id) {
                let m = choose|m: int| 0 <= m < all.len() && (#[trigger] all[m]).id == id;
                if m < kept.len() {
                    assert(kept[m].id == id);
                    assert(has_id(before, id));
                    let k = choose|k: int| 0 <= k < before.len() && (#[trigger] before[k]).id == id;
                    assert(items[k].id == id);
                } else {
                    assert(items[items.len() - 1].id == id);
                }
            }
        }
        assert forall|i: int, j: int| 0 <= i < j < all.len() implies (#[trigger] all[i]).id != (#[trigger] all[j]).id by {
            if j < kept.len() {
                assert(kept[i].id != kept[j].id);
            } else {
                assert(kept[i].id == all[i].id);
                assert(has_id(kept, all[i].id));
                assert(has_id(before, all[i].id));
            }
        }
        assert forall|i: int| 0 <= i < all.len() implies items.contains(#[trigger] all[i]) by {
            if i < kept.len() {
                assert(before.contains(kept[i]));
                let k = choose|k: int| 0 <= k < before.len() && before[k] == kept[i];
                assert(items[k] == all[i]);
            } else {
                assert(items[items.len() - 1] == all[i]);
            }
        }
    }
}

// ---------------------------------------------------------------------------
// Ranking
// ---------------------------------------------------------------------------

/// A number that grows with the instant; an item without one is older than all others.
pub open spec fn age_key(t: Option<Timestamp>) -> int {
    match t {
        Some(t) => t.seconds * 0x1_0000_0000 + t.nanos,
        None => i64::MIN * 0x1_0000_0000 - 1,
    }
}

/// The keys of a list of items.
pub open spec fn age_keys(items: Seq<ItemView>) -> Seq<i128> {
    Seq::new(items.len(), |i: int| age_key(items[i].published_at) as i128)
}

/// Whether `r` holds the items newest first, those of the same instant as they
/// stood and those without an instant last.
pub open spec fn is_newest_first(items: Seq<ItemView>, r: Seq<ItemView>) -> bool {
    exists|order: Seq<usize>| #[trigger] is_descending(order, age_keys(items)) && r == arranged(items, order)
}

/// Sorts the items, newest first.
pub fn newest_first(items: &Vec<ContentItem>) -> (r: Vec<ContentItem>)
    ensures
        is_newest_first(views(items@), views(r@)),
{
    let mut keys: Vec<i128> = Vec::new();
    let mut i: usize = 0;
    while i < items.len()
        invariant
            i <= items@.len(),
            keys@ == age_keys(views(items@)).take(i as int),
        decreases items.len() - i,
    {
        let key: i128 = match items[i].published_at {
            Some(t) => t.seconds as i128 * 0x1_0000_0000 + t.nanos as i128,
            None => i64::MIN as i128 * 0x1_0000_0000 - 1,
        };
        keys.push(key);
        assert(age_keys(views(items@)).take(i + 1) =~= age_keys(views(items@)).take(i as int).push(key));
        i = i + 1;
    }
    assert(keys@ =~= age_keys(views(items@)));
    let order = descending_order(&keys);
    arrange(items, &order)
}

/// The places of a list of scores.
pub open spec fn score_keys(scores: Seq<Score>) -> Seq<i128> {
    Seq::new(scores.len(), |i: int| scores[i].place as i128)
}

/// Whether `r` holds the items by falling score, those of equal score as they stood.
pub open spec fn is_ranked(items: Seq<ItemView>, scores: Seq<Score>, r: Seq<ItemView>) -> bool {
    exists|order: Seq<usize>| #[trigger] is_descending(order, score_keys(scores)) && r == arranged(items, order)
}

/// The places of scores, as keys to sort by.
pub fn keys_of(scores: &Vec<Score>) -> (r: Vec<i128>)
    ensures
        r@ == score_keys(scores@),
{
    let mut keys: Vec<i128> = Vec::new();
    let mut i: usize = 0;
    while i < scores.len()
        invariant
            i <= scores@.len(),
            keys@ == score_keys(scores@).take(i as int),
        decreases scores.len() - i,
    {
        keys.push(scores[i].place as i128);
        assert(score_keys(scores@).take(i + 1) =~= score_keys(scores@).take(i as int).push(scores@[i as int].place as i128));
        i = i + 1;
    }
    assert(keys@ =~= score_keys(scores@));
    keys
}

/// Orders the items, newest first, by the scores that they have at their places:
/// the highest score comes first, and equal scores leave the newer item in front.
pub fn rank(items: &Vec<ContentItem>, scores: &Vec<Score>) -> (r: Vec<ContentItem>)
    requires
        scores@.len() == items@.len(),
    ensures
        is_ranked(views(items@), scores@, views(r@)),
{
    let keys = keys_of(scores);
    let order = descending_order(&keys);
    arrange(items, &order)
}

/// Where no score is above that of a newer item, ranking leaves the order of
/// age: neutral weights rank by age alone.
pub proof fn neutral_ranking_is_by_age(items: Seq<ItemView>, scores: Seq<Score>, r: Seq<ItemView>)
    requires
        items.len() == scores.len(),
        is_ranked(items, scores, r),
        forall|i: int, j: int|
            0 <= i <= j < scores.len() ==> (#[trigger] scores[i]).place >= (#[trigger] scores[j]).place,
    ensures
        r == items,
{
    let keys = score_keys(scores);
    let order = choose|order: Seq<usize>| #[trigger] is_descending(order, keys) && r == arranged(items, order);
    assert forall|i: int, j: int| 0 <= i <= j < keys.len() implies (#[trigger] keys[i]) >= (#[trigger] keys[j]) by {
        assert(scores[i].place >= scores[j].place);
    }
    sorted_stays(items, order, keys);
}

/// The ranking is fixed by the items and their scores.
pub proof fn ranking_is_unique(items: Seq<ItemView>, scores: Seq<Score>, a: Seq<ItemView>, b: Seq<ItemView>)
    requires
        is_ranked(items, scores, a),
        is_ranked(items, scores, b),
    ensures
        a == b,
{
    let keys = score_keys(scores);
    let x = choose|order: Seq<usize>| #[trigger] is_descending(order, keys) && a == arranged(items, order);
    let y = choose|order: Seq<usize>| #[trigger] is_descending(order, keys) && b == arranged(items, order);
    order_is_unique(x, y, keys);
}

// ---------------------------------------------------------------------------
// Curating
// ---------------------------------------------------------------------------

/// How many of the items come from the given source.
pub open spec fn count_from(items: Seq<ItemView>, source: Seq<char>) -> nat
    decreases items.len(),
{
    if items.len() == 0 {
        0
    } else {
        count_from(items.drop_last(), source) + if items.last().source_id == source {
            1nat
        } else {
            0nat
        }
    }
}

/// From this similarity on two items are too near for one briefing.
pub open spec fn diversity() -> Score {
    Score { place: DIVERSITY_SIMILARITY }
}

/// Whether the item at a place is taken in the first turn, behind those at the
/// given places: its source has not had its share, and it is not too near to one
/// of them.
pub open spec fn is_taken(
    items: Seq<ItemView>,
    cosines: Seq<Vec<Score>>,
    cap: nat,
    before: Seq<int>,
    i: int,
) -> bool {
    &&& count_from(at_places(items, before), items[i].source_id) < cap
    &&& !near_any(items, cosines, diversity(), before, i)
}

/// The places, among the first `n`, of the items that are taken in the first turn.
pub open spec fn first_turn(items: Seq<ItemView>, cosines: Seq<Vec<Score>>, cap: nat, n: nat) -> Seq<int>
    decreases n,
{
    if n == 0 {
        seq![]
    } else {
        let before = first_turn(items, cosines, cap, (n - 1) as nat);
        if is_taken(items, cosines, cap, before, n - 1) {
            before.push(n - 1)
        } else {
            before
        }
    }
}

/// The places of the others.
pub open spec fn second_turn(items: Seq<ItemView>, cosines: Seq<Vec<Score>>, cap: nat, n: nat) -> Seq<int>
    decreases n,
{
    if n == 0 {
        seq![]
    } else {
        let before = second_turn(items, cosines, cap, (n - 1) as nat);
        if is_taken(items, cosines, cap, first_turn(items, cosines, cap, (n - 1) as nat), n - 1) {
            before
        } else {
            before.push(n - 1)
        }
    }
}

/// How many items of one source are taken before the others had their turn: at least one.
pub open spec fn source_cap(max_per_source: usize) -> nat {
    if max_per_source == 0 {
        1
    } else {
        max_per_source as nat
    }
}

/// The first `n` of a sequence, or all of it.
pub open spec fn first_of<A>(s: Seq<A>, n: nat) -> Seq<A> {
    if n < s.len() {
        s.take(n as int)
    } else {
        s
    }
}

/// The places of all items, in the order in which they are picked.
pub open spec fn turns(items: Seq<ItemView>, cosines: Seq<Vec<Score>>, max_per_source: usize) -> Seq<int> {
    let cap = source_cap(max_per_source);
    first_turn(items, cosines, cap, items.len()) + second_turn(items, cosines, cap, items.len())
}

/// The `top_n` items that are picked: first those that are within the share of
/// their source and not too near to one picked before, then, where places are
/// left, the others, each in their order.
pub open spec fn picked(
    items: Seq<ItemView>,
    cosines: Seq<Vec<Score>>,
    top_n: usize,
    max_per_source: usize,
) -> Seq<ItemView> {
    first_of(at_places(items, turns(items, cosines, max_per_source)), top_n as nat)
}

/// Counts how many of the first `n` items come from a source.
fn count_source(items: &Vec<ContentItem>, n: usize, source: &str) -> (r: usize)
    requires
        n <= items@.len(),
    ensures
        r == count_from(views(items@).take(n as int), source@),
        r <= n,
{
    let mut count: usize = 0;
    let mut i: usize = 0;
    while i < n
        invariant
            i <= n <= items@.len(),
            count <= i,
            count == count_from(views(items@).take(i as int), source@),
        decreases n - i,
    {
        proof {
            let next = views(items@).take(i + 1);
            assert(next.drop_last() =~= views(items@).take(i as int));
            assert(next.last() == items@[i as int]@);
        }
        if same(&items[i].source_id, source) {
            count = count + 1;
        }
        i = i + 1;
    }
    count
}

/// The section that holds the picked items.
pub open spec fn main_section(items: Seq<ItemView>) -> SectionView {
    SectionView { id: "ai_tech"@, title: "KI & Tech — Highlights"@, items }
}

/// Puts the best of the ranked items into one section, not too many of one
/// source and not too near to each other; `cosines` holds the cosine of every
/// pair. Places that are left are filled with the best of the rest. The caller
/// sets the date and the three things of the day.
pub fn curate(items: Vec<ContentItem>, cosines: &Vec<Vec<Score>>, top_n: usize, max_per_source: usize) -> (r: Briefing)
    requires
        is_table(cosines@, items@.len()),
    ensures
        r@ == (BriefingView {
            date: seq![],
            tldr: seq![],
            sections: seq![main_section(picked(views(items@), cosines@, top_n, max_per_source))],
        }),
{
    let cap: usize = if max_per_source == 0 { 1 } else { max_per_source };
    let ghost all = views(items@);
    let mut chosen: Vec<ContentItem> = Vec::new();
    let mut places: Vec<usize> = Vec::new();
    let mut overflow: Vec<ContentItem> = Vec::new();
    let mut i: usize = 0;
    assert(as_ints(places@) =~= seq![]);
    assert(views(chosen@) =~= at_places(all, seq![]));
    assert(views(overflow@) =~= at_places(all, seq![]));
    while i < items.len()
        invariant
            i <= items@.len(),
            all == views(items@),
            is_table(cosines@, items@.len()),
            forall|k: int| 0 <= k < places@.len() ==> (#[trigger] places@[k]) < i,
            as_ints(places@) == first_turn(all, cosines@, cap as nat, i as nat),
            views(chosen@) == at_places(all, as_ints(places@)),
            views(overflow@) == at_places(all, second_turn(all, cosines@, cap as nat, i as nat)),
        decreases items.len() - i,
    {
        let ghost before = as_ints(places@);
        let ghost others = second_turn(all, cosines@, cap as nat, i as nat);
        let n: usize = chosen.len();
        assert(views(chosen@).take(n as int) =~= views(chosen@));
        let share: usize = count_source(&chosen, n, &items[i].source_id);
        let near = is_near_kept(
            &items,
            cosines,
            Score { place: DIVERSITY_SIMILARITY },
            &chosen,
            &places,
            i,
        );
        if share < cap && !near {
            push_item(&mut chosen, items[i].clone());
            places.push(i);
            assert(as_ints(places@) =~= before.push(i as int));
            assert(views(chosen@) =~= at_places(all, before.push(i as int)));
        } else {
            push_item(&mut overflow, items[i].clone());
            assert(views(overflow@) =~= at_places(all, others.push(i as int)));
        }
        i = i + 1;
    }
    let ghost first = views(chosen@);
    let ghost second = views(overflow@);
    let mut j: usize = 0;
    assert(first + second.take(0) =~= first);
    while j < overflow.len()
        invariant
            j <= overflow@.len(),
            second == views(overflow@),
            views(chosen@) == first + second.take(j as int),
        decreases overflow.len() - j,
    {
        push_item(&mut chosen, overflow[j].clone());
        assert(first + second.take(j + 1) =~= (first + second.take(j as int)).push(second[j as int]));
        j = j + 1;
    }
    assert(second.take(j as int) =~= second);
    let ghost line = first + second;
    assert(line =~= at_places(all, turns(all, cosines@, max_per_source)));
    if top_n < chosen.len() {
        chosen.truncate(top_n);
        assert(views(chosen@) =~= line.take(top_n as int));
    }
    let mut sections: Vec<BriefingSection> = Vec::new();
    push_section(
        &mut sections,
        BriefingSection {
            id: "ai_tech".to_string(),
            title: "KI & Tech — Highlights".to_string(),
            items: chosen,
        },
    );
    let tldr: Vec<String> = Vec::new();
    assert(views(tldr@) =~= seq![]);
    assert(views(sections@) =~= seq![main_section(picked(all, cosines@, top_n, max_per_source))]);
    Briefing { date: String::new(), tldr, sections }
}

/// Both turns together take each of the first `n` items once, each turn in order.
proof fn lemma_turns(items: Seq<ItemView>, cosines: Seq<Vec<Score>>, cap: nat, n: nat)
    ensures
        first_turn(items, cosines, cap, n).len() + second_turn(items, cosines, cap, n).len() == n,
        forall|k: int|
            0 <= k < first_turn(items, cosines, cap, n).len() ==> 0 <= (#[trigger] first_turn(items, cosines, cap, n)[k])
                < n,
        forall|k: int|
            0 <= k < second_turn(items, cosines, cap, n).len() ==> 0 <= (#[trigger] second_turn(
                items,
                cosines,
                cap,
                n,
            )[k]) < n,
    decreases n,
{
    if n > 0 {
        lemma_turns(items, cosines, cap, (n - 1) as nat);
    }
}

/// In the first turn no source has more than its share.
proof fn lemma_first_turn_share(
    items: Seq<ItemView>,
    cosines: Seq<Vec<Score>>,
    cap: nat,
    n: nat,
    source: Seq<char>,
)
    ensures
        count_from(at_places(items, first_turn(items, cosines, cap, n)), source) <= cap,
    decreases n,
{
    if n > 0 {
        let before = first_turn(items, cosines, cap, (n - 1) as nat);
        lemma_first_turn_share(items, cosines, cap, (n - 1) as nat, source);
        if is_taken(items, cosines, cap, before, n - 1) {
            let taken = at_places(items, before.push(n - 1));
            assert(taken.drop_last() =~= at_places(items, before));
            assert(taken.last() == items[n - 1]);
        }
    }
}

/// In the first turn no two items are too near to each other.
proof fn lemma_first_turn_apart(
    items: Seq<ItemView>,
    cosines: Seq<Vec<Score>>,
    cap: nat,
    n: nat,
    j: int,
    k: int,
)
    requires
        0 <= j < k < first_turn(items, cosines, cap, n).len(),
    ensures
        !same_story(
            items,
            cosines,
            diversity(),
            first_turn(items, cosines, cap, n)[j],
            first_turn(items, cosines, cap, n)[k],
        ),
    decreases n,
{
    let before = first_turn(items, cosines, cap, (n - 1) as nat);
    if k < before.len() {
        lemma_first_turn_apart(items, cosines, cap, (n - 1) as nat, j, k);
    } else {
        assert(first_turn(items, cosines, cap, n)[j] == before[j]);
    }
}

/// A prefix has at most as many items of a source as the whole.
proof fn lemma_prefix_counts(items: Seq<ItemView>, n: int, source: Seq<char>)
    requires
        0 <= n <= items.len(),
    ensures
        count_from(items.take(n), source) <= count_from(items, source),
    decreases items.len(),
{
    if n < items.len() {
        assert(items.drop_last().take(n) =~= items.take(n));
        lemma_prefix_counts(items.drop_last(), n, source);
    } else {
        assert(items.take(n) =~= items);
    }
}

/// Curating shortens the briefing only to `top_n`: it has `top_n` items, or all
/// items where there are fewer.
pub proof fn picked_fills_up(items: Seq<ItemView>, cosines: Seq<Vec<Score>>, top_n: usize, max_per_source: usize)
    ensures
        picked(items, cosines, top_n, max_per_source).len() == (if top_n < items.len() {
            top_n as nat
        } else {
            items.len()
        }),
{
    lemma_turns(items, cosines, source_cap(max_per_source), items.len());
}

/// Where the first turn suffices, no source has more picks than its share.
pub proof fn picked_respects_cap(
    items: Seq<ItemView>,
    cosines: Seq<Vec<Score>>,
    top_n: usize,
    max_per_source: usize,
    source: Seq<char>,
)
    requires
        first_turn(items, cosines, source_cap(max_per_source), items.len()).len() >= top_n,
    ensures
        count_from(picked(items, cosines, top_n, max_per_source), source) <= source_cap(max_per_source),
{
    let cap = source_cap(max_per_source);
    let w = at_places(items, first_turn(items, cosines, cap, items.len()));
    lemma_first_turn_share(items, cosines, cap, items.len(), source);
    lemma_prefix_counts(w, top_n as int, source);
    assert(picked(items, cosines, top_n, max_per_source) =~= w.take(top_n as int));
}

/// Where the first turn suffices, no two picks are too near to each other: the
/// picks are the first places of that turn, and those are apart.
pub proof fn picked_are_apart(
    items: Seq<ItemView>,
    cosines: Seq<Vec<Score>>,
    top_n: usize,
    max_per_source: usize,
    j: int,
    k: int,
)
    requires
        first_turn(items, cosines, source_cap(max_per_source), items.len()).len() >= top_n,
        0 <= j < k < top_n,
    ensures
        ({
            let places = first_turn(items, cosines, source_cap(max_per_source), items.len());
            &&& picked(items, cosines, top_n, max_per_source)[j] == items[places[j]]
            &&& picked(items, cosines, top_n, max_per_source)[k] == items[places[k]]
            &&& !same_story(items, cosines, diversity(), places[j], places[k])
        }),
{
    let cap = source_cap(max_per_source);
    let places = first_turn(items, cosines, cap, items.len());
    lemma_first_turn_apart(items, cosines, cap, items.len(), j, k);
    assert(picked(items, cosines, top_n, max_per_source) =~= at_places(items, places).take(top_n as int));
}

/// Curating invents nothing: every pick is one of the items.
pub proof fn picked_are_items(items: Seq<ItemView>, cosines: Seq<Vec<Score>>, top_n: usize, max_per_source: usize)
    ensures
        forall|i: int|
            0 <= i < picked(items, cosines, top_n, max_per_source).len() ==> items.contains(
                #[trigger] picked(items, cosines, top_n, max_per_source)[i],
            ),
{
    let cap = source_cap(max_per_source);
    let first = first_turn(items, cosines, cap, items.len());
    let all = turns(items, cosines, max_per_source);
    lemma_turns(items, cosines, cap, items.len());
    let p = picked(items, cosines, top_n, max_per_source);
    assert forall|i: int| 0 <= i < p.len() implies items.contains(#[trigger] p[i]) by {
        assert(p[i] == items[all[i]]);
        if i < first.len() {
            assert(all[i] == first[i]);
        } else {
            assert(all[i] == second_turn(items, cosines, cap, items.len())[i - first.len()]);
        }
    }
}

/// Whether one of the first `n` items comes from the given source.
pub open spec fn source_among(items: Seq<ItemView>, n: int, source: Seq<char>) -> bool {
    exists|j: int| 0 <= j < n && (#[trigger] items[j]).source_id == source
}

/// The place of the wildcard: the first item behind the first `top_n` whose
/// source does not occur among those, or else the first item behind them.
pub open spec fn is_wildcard(ranked: Seq<ItemView>, top_n: int, i: int) -> bool {
    &&& top_n <= i < ranked.len()
    &&& if source_among(ranked, top_n, ranked[i].source_id) {
        &&& i == top_n
        &&& forall|k: int|
            top_n <= k < ranked.len() ==> source_among(ranked, top_n, (#[trigger] ranked[k]).source_id)
    } else {
        forall|k: int| top_n <= k < i ==> source_among(ranked, top_n, (#[trigger] ranked[k]).source_id)
    }
}

/// Decides `source_among`.
fn has_source(items: &Vec<ContentItem>, n: usize, source: &str) -> (r: bool)
    requires
        n <= items@.len(),
    ensures
        r == source_among(views(items@), n as int, source@),
{
    let mut j: usize = 0;
    while j < n
        invariant
            j <= n <= items@.len(),
            forall|k: int| 0 <= k < j ==> (#[trigger] views(items@)[k]).source_id != source@,
        decreases n - j,
    {
        if same(&items[j].source_id, source) {
            assert(views(items@)[j as int].source_id == source@);
            return true;
        }
        j = j + 1;
    }
    false
}

/// Picks the wildcard: an item beyond the first `top_n`, if possible from a
/// source that is not represented there.
pub fn pick_wildcard(ranked: &Vec<ContentItem>, top_n: usize) -> (r: Option<ContentItem>)
    ensures
        match r {
            Some(w) => exists|i: int| #[trigger] is_wildcard(views(ranked@), top_n as int, i)
                && w@ == views(ranked@)[i],
            None => ranked@.len() <= top_n,
        },
{
    if ranked.len() <= top_n {
        return None;
    }
    let ghost all = views(ranked@);
    let mut i: usize = top_n;
    while i < ranked.len()
        invariant
            top_n <= i <= ranked@.len(),
            all == views(ranked@),
            forall|k: int| top_n <= k < i ==> source_among(all, top_n as int, (#[trigger] all[k]).source_id),
        decreases ranked.len() - i,
    {
        if !has_source(ranked, top_n, &ranked[i].source_id) {
            assert(is_wildcard(all, top_n as int, i as int));
            return Some(ranked[i].clone());
        }
        i = i + 1;
    }
    assert(is_wildcard(all, top_n as int, top_n as int));
    Some(ranked[top_n].clone())
}

/// There is one place at most for the wildcard.
pub proof fn wildcard_is_unique(ranked: Seq<ItemView>, top_n: int, i: int, j: int)
    requires
        is_wildcard(ranked, top_n, i),
        is_wildcard(ranked, top_n, j),
    ensures
        i == j,
{
    if i < j {
        assert(source_among(ranked, top_n, ranked[i].source_id));
        assert(source_among(ranked, top_n, ranked[j].source_id));
    } else if j < i {
        assert(source_among(ranked, top_n, ranked[j].source_id));
        assert(source_among(ranked, top_n, ranked[i].source_id));
    }
}

// ---------------------------------------------------------------------------
// What the selection is for
// ---------------------------------------------------------------------------

/// Of the items with one identifier the first is kept, and no other; what is kept
/// stands in the order of the batch.
pub proof fn first_of_each_identifier_is_kept(items: Seq<ItemView>) -> (places: Seq<int>)
    ensures
        distinct_items(items) == Seq::new(places.len(), |i: int| items[places[i]]),
        forall|i: int| 0 <= i < places.len() ==> 0 <= (#[trigger] places[i]) < items.len(),
        forall|i: int, j: int| 0 <= i < j < places.len() ==> (#[trigger] places[i]) < (#[trigger] places[j]),
        forall|k: int|
            0 <= k < items.len() ==> (#[trigger] places.contains(k) <==> forall|j: int|
                0 <= j < k ==> (#[trigger] items[j]).id != items[k].id),
    decreases items.len(),
{
    if items.len() == 0 {
        assert(distinct_items(items) =~= Seq::new(0, |i: int| items[i]));
        seq![]
    } else {
        let before = items.drop_last();
        let n = items.len() - 1;
        let old_places = first_of_each_identifier_is_kept(before);
        let places = if has_id(before, items.last().id) {
            old_places
        } else {
            old_places.push(n)
        };
        assert(distinct_items(items) =~= Seq::new(places.len(), |i: int| items[places[i]]));
        assert forall|k: int| 0 <= k < items.len() implies (#[trigger] places.contains(k) <==> forall|j: int|
            0 <= j < k ==> (#[trigger] items[j]).id != items[k].id) by {
            if k < n {
                assert(old_places.contains(k) <==> forall|j: int| 0 <= j < k ==> (#[trigger] before[j]).id != before[k].id);
                if places.contains(k) {
                    let m = choose|m: int| 0 <= m < places.len() && places[m] == k;
                    assert(old_places[m] == k);
                    assert forall|j: int| 0 <= j < k implies (#[trigger] items[j]).id != items[k].id by {
                        assert(before[j].id != before[k].id);
                    }
                }
                if forall|j: int| 0 <= j < k ==> (#[trigger] items[j]).id != items[k].id {
                    assert forall|j: int| 0 <= j < k implies (#[trigger] before[j]).id != before[k].id by {
                        assert(items[j].id != items[k].id);
                    }
                    let m = choose|m: int| 0 <= m < old_places.len() && old_places[m] == k;
                    assert(places[m] == k);
                }
            } else if has_id(before, items.last().id) {
                let j = choose|j: int| 0 <= j < before.len() && (#[trigger] before[j]).id == items.last().id;
                assert(items[j].id == items[k].id);
                if places.contains(k) {
                    let m = choose|m: int| 0 <= m < places.len() && places[m] == k;
                    assert(old_places[m] < n);
                }
            } else {
                assert(places[places.len() - 1] == k);
                assert forall|j: int| 0 <= j < k implies (#[trigger] items[j]).id != items[k].id by {
                    assert(before[j].id != items.last().id);
                }
            }
        }
        places
    }
}

/// Newer items stand first: of two items with an instant the later one, by its
/// seconds and then by its nanoseconds, and those without an instant behind all
/// others. Items of one instant, and those without any, stay as they stood. No item
/// is lost, and none comes twice.
pub proof fn newer_items_stand_first(items: Seq<ItemView>, r: Seq<ItemView>) -> (places: Seq<int>)
    requires
        is_newest_first(items, r),
        items.len() <= usize::MAX,
    ensures
        r.len() == items.len() == places.len(),
        forall|i: int| 0 <= i < r.len() ==> 0 <= (#[trigger] places[i]) < items.len() && r[i] == items[places[i]],
        forall|k: int| 0 <= k < items.len() ==> #[trigger] places.contains(k),
        forall|i: int, j: int|
            0 <= i < j < r.len() ==> match ((#[trigger] r[i]).published_at, (#[trigger] r[j]).published_at) {
                (Some(a), Some(b)) => {
                    ||| a.seconds > b.seconds
                    ||| a.seconds == b.seconds && a.nanos > b.nanos
                    ||| a.seconds == b.seconds && a.nanos == b.nanos && places[i] < places[j]
                },
                (Some(_), None) => true,
                (None, Some(_)) => false,
                (None, None) => places[i] < places[j],
            },
{
    let keys = age_keys(items);
    let order = choose|order: Seq<usize>| #[trigger] is_descending(order, keys) && r == arranged(items, order);
    let places = Seq::new(order.len(), |i: int| order[i] as int);
    assert forall|k: int| 0 <= k < items.len() implies #[trigger] places.contains(k) by {
        assert(order.contains(k as usize));
        let i = choose|i: int| 0 <= i < order.len() && order[i] == k as usize;
        assert(places[i] == k);
    }
    assert forall|i: int, j: int| 0 <= i < j < r.len() implies match (
        (#[trigger] r[i]).published_at,
        (#[trigger] r[j]).published_at,
    ) {
        (Some(a), Some(b)) => {
            ||| a.seconds > b.seconds
            ||| a.seconds == b.seconds && a.nanos > b.nanos
            ||| a.seconds == b.seconds && a.nanos == b.nanos && places[i] < places[j]
        },
        (Some(_), None) => true,
        (None, Some(_)) => false,
        (None, None) => places[i] < places[j],
    } by {
        let (x, y) = (order[i] as int, order[j] as int);
        assert(keys[x] == age_key(items[x].published_at) as i128);
        assert(keys[y] == age_key(items[y].published_at) as i128);
        assert(i64::MIN * 0x1_0000_0000 - 1 <= age_key(items[x].published_at) <= i64::MAX * 0x1_0000_0000 + u32::MAX);
        assert(i64::MIN * 0x1_0000_0000 - 1 <= age_key(items[y].published_at) <= i64::MAX * 0x1_0000_0000 + u32::MAX);
    }
    places
}

/// Items of higher score stand first, by the numbers that the scores denote; items
/// of equal score stay as they stood. No item is lost, and none comes twice.
pub proof fn higher_scores_stand_first(items: Seq<ItemView>, scores: Seq<Score>, r: Seq<ItemView>) -> (places: Seq<int>)
    requires
        is_ranked(items, scores, r),
        scores.len() == items.len() <= usize::MAX,
    ensures
        r.len() == items.len() == places.len(),
        forall|i: int| 0 <= i < r.len() ==> 0 <= (#[trigger] places[i]) < items.len() && r[i] == items[places[i]],
        forall|k: int| 0 <= k < items.len() ==> #[trigger] places.contains(k),
        forall|i: int, j: int|
            0 <= i < j < places.len() ==> scores[#[trigger] places[i]].units() > scores[#[trigger] places[j]].units() || (
            scores[places[i]].units() == scores[places[j]].units() && places[i] < places[j]),
{
    let keys = score_keys(scores);
    let order = choose|order: Seq<usize>| #[trigger] is_descending(order, keys) && r == arranged(items, order);
    let places = Seq::new(order.len(), |i: int| order[i] as int);
    assert forall|k: int| 0 <= k < items.len() implies #[trigger] places.contains(k) by {
        assert(order.contains(k as usize));
        let i = choose|i: int| 0 <= i < order.len() && order[i] == k as usize;
        assert(places[i] == k);
    }
    assert forall|i: int, j: int| 0 <= i < j < places.len() implies scores[#[trigger] places[i]].units() > scores[
        #[trigger] places[j]
    ].units() || (scores[places[i]].units() == scores[places[j]].units() && places[i] < places[j]) by {
        let (x, y) = (order[i] as int, order[j] as int);
        assert(comes_before(keys, x, y));
        order_is_numeric(scores[x], scores[y]);
        order_is_numeric(scores[y], scores[x]);
    }
    places
}

/// The items of a source.
pub open spec fn of_source(items: Seq<ItemView>, source: Seq<char>) -> Seq<ItemView> {
    items.filter(|it: ItemView| it.source_id == source)
}

/// The items of a source are counted wherever they stand.
pub proof fn items_of_a_source_are_counted(items: Seq<ItemView>, source: Seq<char>)
    ensures
        count_from(items, source) == of_source(items, source).len(),
        count_from(items, source) <= items.len(),
        count_from(items, source) == 0 <==> forall|i: int|
            0 <= i < items.len() ==> (#[trigger] items[i]).source_id != source,
    decreases items.len(),
{
    reveal(Seq::filter);
    if items.len() > 0 {
        let before = items.drop_last();
        items_of_a_source_are_counted(before, source);
        if count_from(items, source) == 0 {
            assert forall|i: int| 0 <= i < items.len() implies (#[trigger] items[i]).source_id != source by {
                if i < before.len() {
                    assert(before[i].source_id != source);
                }
            }
        }
        if forall|i: int| 0 <= i < items.len() ==> (#[trigger] items[i]).source_id != source {
            assert(items[items.len() - 1].source_id != source);
            assert forall|i: int| 0 <= i < before.len() implies (#[trigger] before[i]).source_id != source by {
                assert(items[i].source_id != source);
            }
        }
    }
}

/// How many of the places hold an item of a source.
proof fn lemma_count_at_places(items: Seq<ItemView>, places: Seq<int>, source: Seq<char>)
    ensures
        count_from(at_places(items, places), source) == places.filter(|j: int| items[j].source_id == source).len(),
    decreases places.len(),
{
    reveal(Seq::filter);
    if places.len() > 0 {
        lemma_count_at_places(items, places.drop_last(), source);
        assert(at_places(items, places).drop_last() =~= at_places(items, places.drop_last()));
        assert(at_places(items, places).last() == items[places.last()]);
    }
}

/// An item waits for the second turn only for a reason. The items of the first turn
/// stand in their order; an item is among them exactly where, of those before it
/// there, fewer than the cap are of its source, and none is embedded like it with a
/// cosine from the limit on. The others stand in the second turn, in their order.
pub proof fn items_wait_for_a_reason(items: Seq<ItemView>, cosines: Seq<Vec<Score>>, cap: nat, n: nat)
    ensures
        ({
            let first = first_turn(items, cosines, cap, n);
            let second = second_turn(items, cosines, cap, n);
            &&& forall|i: int, j: int| 0 <= i < j < first.len() ==> (#[trigger] first[i]) < (#[trigger] first[j])
            &&& forall|i: int, j: int| 0 <= i < j < second.len() ==> (#[trigger] second[i]) < (#[trigger] second[j])
            &&& forall|i: int| 0 <= i < first.len() ==> 0 <= (#[trigger] first[i]) < n
            &&& forall|i: int| 0 <= i < second.len() ==> 0 <= (#[trigger] second[i]) < n
            &&& forall|i: int| 0 <= i < n ==> (#[trigger] second.contains(i) <==> !first.contains(i))
            &&& forall|i: int|
                0 <= i < n ==> (#[trigger] first.contains(i) <==> {
                    &&& first.filter(|j: int| j < i && items[j].source_id == items[i].source_id).len() < cap
                    &&& forall|j: int|
                        first.contains(j) && j < i && items[j].embedding is Some && items[i].embedding is Some
                            ==> (#[trigger] cosines[j])@[i].place < DIVERSITY_SIMILARITY
                })
        }),
    decreases n,
{
    reveal(Seq::filter);
    let first = first_turn(items, cosines, cap, n);
    let second = second_turn(items, cosines, cap, n);
    if n > 0 {
        let m = n - 1;
        let f = first_turn(items, cosines, cap, m as nat);
        let s = second_turn(items, cosines, cap, m as nat);
        items_wait_for_a_reason(items, cosines, cap, m as nat);
        let taken = is_taken(items, cosines, cap, f, m);
        assert(taken ==> first == f.push(m) && second == s);
        assert(!taken ==> first == f && second == s.push(m));
        assert forall|i: int| #[trigger] first.contains(i) <==> f.contains(i) || (taken && i == m) by {
            if f.contains(i) {
                let k = choose|k: int| 0 <= k < f.len() && f[k] == i;
                assert(first[k] == i);
            }
            if taken {
                assert(first[first.len() - 1] == m);
            }
        }
        assert forall|i: int| #[trigger] second.contains(i) <==> s.contains(i) || (!taken && i == m) by {
            if s.contains(i) {
                let k = choose|k: int| 0 <= k < s.len() && s[k] == i;
                assert(second[k] == i);
            }
            if !taken {
                assert(second[second.len() - 1] == m);
            }
        }
        assert forall|i: int| 0 <= i < n implies (#[trigger] second.contains(i) <==> !first.contains(i)) by {
            if i < m {
                assert(s.contains(i) <==> !f.contains(i));
            }
        }
        assert forall|i: int| 0 <= i < n implies (#[trigger] first.contains(i) <==> {
            &&& first.filter(|j: int| j < i && items[j].source_id == items[i].source_id).len() < cap
            &&& forall|j: int|
                first.contains(j) && j < i && items[j].embedding is Some && items[i].embedding is Some
                    ==> (#[trigger] cosines[j])@[i].place < DIVERSITY_SIMILARITY
        }) by {
            let before = |j: int| j < i && items[j].source_id == items[i].source_id;
            assert(first.filter(before) == f.filter(before)) by {
                if taken {
                    assert(first.drop_last() =~= f);
                    assert(!before(m));
                }
            }
            if i < m {
                assert(f.contains(i) <==> {
                    &&& f.filter(|j: int| j < i && items[j].source_id == items[i].source_id).len() < cap
                    &&& forall|j: int|
                        f.contains(j) && j < i && items[j].embedding is Some && items[i].embedding is Some
                            ==> (#[trigger] cosines[j])@[i].place < DIVERSITY_SIMILARITY
                });
                assert(f.filter(|j: int| j < i && items[j].source_id == items[i].source_id) == f.filter(before));
                assert(forall|j: int| j < i ==> (#[trigger] first.contains(j) <==> f.contains(j)));
            } else {
                lemma_count_at_places(items, f, items[i].source_id);
                lemma_same_filter(f, before, |j: int| items[j].source_id == items[i].source_id);
                let apart = forall|j: int|
                    first.contains(j) && j < i && items[j].embedding is Some && items[i].embedding is Some
                        ==> (#[trigger] cosines[j])@[i].place < DIVERSITY_SIMILARITY;
                if near_any(items, cosines, diversity(), f, i) {
                    let k = choose|k: int|
                        0 <= k < f.len() && same_story(items, cosines, diversity(), #[trigger] f[k], i);
                    assert(f.contains(f[k]));
                    assert(first.contains(f[k]));
                    assert(cosines[f[k]]@[i].place >= DIVERSITY_SIMILARITY);
                    assert(!apart);
                } else {
                    assert forall|j: int|
                        first.contains(j) && j < i && items[j].embedding is Some && items[i].embedding is Some implies (
                    #[trigger] cosines[j])@[i].place < DIVERSITY_SIMILARITY by {
                        assert(f.contains(j));
                        let k = choose|k: int| 0 <= k < f.len() && f[k] == j;
                        assert(!same_story(items, cosines, diversity(), f[k], i));
                    }
                }
            }
        }
    }
}

/// Two conditions that agree on every place select the same places.
proof fn lemma_same_filter(s: Seq<int>, a: spec_fn(int) -> bool, b: spec_fn(int) -> bool)
    requires
        forall|k: int| 0 <= k < s.len() ==> a(#[trigger] s[k]) == b(s[k]),
    ensures
        s.filter(a) == s.filter(b),
    decreases s.len(),
{
    reveal(Seq::filter);
    if s.len() > 0 {
        assert forall|k: int| 0 <= k < s.drop_last().len() implies a(#[trigger] s.drop_last()[k]) == b(s.drop_last()[k]) by {
            assert(a(s[k]) == b(s[k]));
        }
        lemma_same_filter(s.drop_last(), a, b);
        assert(a(s[s.len() - 1]) == b(s[s.len() - 1]));
    }
}

/// What is picked comes from two turns. `first` and `second` are places that stand in
/// their order and together are all places. A place is in the first turn exactly
/// where its source has had less than its share there, one at least, and nothing
/// there is too much like it. The picks are the first `top_n` of both turns.
pub proof fn picks_come_in_two_turns(
    items: Seq<ItemView>,
    cosines: Seq<Vec<Score>>,
    top_n: usize,
    max_per_source: usize,
) -> (r: (Seq<int>, Seq<int>))
    ensures
        ({
            let (first, second) = r;
            let share = if max_per_source == 0 {
                1int
            } else {
                max_per_source as int
            };
            let p = picked(items, cosines, top_n, max_per_source);
            &&& forall|i: int, j: int| 0 <= i < j < first.len() ==> (#[trigger] first[i]) < (#[trigger] first[j])
            &&& forall|i: int, j: int| 0 <= i < j < second.len() ==> (#[trigger] second[i]) < (#[trigger] second[j])
            &&& first.len() + second.len() == items.len()
            &&& forall|i: int| 0 <= i < first.len() ==> 0 <= (#[trigger] first[i]) < items.len()
            &&& forall|i: int| 0 <= i < second.len() ==> 0 <= (#[trigger] second[i]) < items.len()
            &&& forall|i: int| 0 <= i < items.len() ==> (#[trigger] second.contains(i) <==> !first.contains(i))
            &&& forall|i: int|
                0 <= i < items.len() ==> (#[trigger] first.contains(i) <==> {
                    &&& first.filter(|j: int| j < i && items[j].source_id == items[i].source_id).len() < share
                    &&& forall|j: int|
                        first.contains(j) && j < i && items[j].embedding is Some && items[i].embedding is Some
                            ==> (#[trigger] cosines[j])@[i].place < DIVERSITY_SIMILARITY
                })
            &&& p.len() <= top_n
            &&& p.len() == top_n || p.len() == items.len()
            &&& forall|i: int|
                0 <= i < p.len() ==> (#[trigger] p[i]) == items[if i < first.len() {
                    first[i]
                } else {
                    second[i - first.len()]
                }]
        }),
{
    let cap = source_cap(max_per_source);
    let n = items.len();
    lemma_turns(items, cosines, cap, n);
    items_wait_for_a_reason(items, cosines, cap, n);
    (first_turn(items, cosines, cap, n), second_turn(items, cosines, cap, n))
}

/// Where no source has more than its share and no two items are alike, curating
/// leaves the ranking alone: it takes the first `top_n`.
pub proof fn varied_ranking_is_taken_as_it_is(
    items: Seq<ItemView>,
    cosines: Seq<Vec<Score>>,
    top_n: usize,
    max_per_source: usize,
)
    requires
        forall|i: int|
            0 <= i < items.len() ==> of_source(items, (#[trigger] items[i]).source_id).len() <= max_per_source,
        forall|i: int, j: int|
            #![trigger cosines[i], items[j]]
            0 <= i < j < items.len() && items[i].embedding is Some && items[j].embedding is Some
                ==> cosines[i]@[j].place < DIVERSITY_SIMILARITY,
    ensures
        picked(items, cosines, top_n, max_per_source) == (if top_n < items.len() {
            items.take(top_n as int)
        } else {
            items
        }),
{
    let cap = source_cap(max_per_source);
    lemma_all_in_first_turn(items, cosines, cap, items.len(), max_per_source);
    let all = turns(items, cosines, max_per_source);
    lemma_turns(items, cosines, cap, items.len());
    assert(second_turn(items, cosines, cap, items.len()).len() == 0);
    assert(at_places(items, all) =~= items);
}

proof fn lemma_all_in_first_turn(
    items: Seq<ItemView>,
    cosines: Seq<Vec<Score>>,
    cap: nat,
    n: nat,
    max_per_source: usize,
)
    requires
        n <= items.len(),
        cap >= max_per_source,
        forall|i: int|
            0 <= i < items.len() ==> of_source(items, (#[trigger] items[i]).source_id).len() <= max_per_source,
        forall|i: int, j: int|
            #![trigger cosines[i], items[j]]
            0 <= i < j < items.len() && items[i].embedding is Some && items[j].embedding is Some
                ==> cosines[i]@[j].place < DIVERSITY_SIMILARITY,
    ensures
        first_turn(items, cosines, cap, n) == Seq::new(n, |i: int| i),
    decreases n,
{
    if n == 0 {
        assert(first_turn(items, cosines, cap, n) =~= Seq::new(n, |i: int| i));
    } else {
        let m = n - 1;
        lemma_all_in_first_turn(items, cosines, cap, m as nat, max_per_source);
        let f = first_turn(items, cosines, cap, m as nat);
        let source = items[m].source_id;
        assert(at_places(items, f) =~= items.take(m));
        lemma_prefix_counts(items, n as int, source);
        assert(items.take(n as int).drop_last() =~= items.take(m));
        items_of_a_source_are_counted(items, source);
        assert(of_source(items, items[m].source_id).len() <= max_per_source);
        assert(!near_any(items, cosines, diversity(), f, m)) by {
            if near_any(items, cosines, diversity(), f, m) {
                let k = choose|k: int| 0 <= k < f.len() && same_story(items, cosines, diversity(), #[trigger] f[k], m);
                assert(f[k] == k);
                assert(cosines[k]@[m].place < DIVERSITY_SIMILARITY && items[m] == items[m]);
            }
        }
        assert(first_turn(items, cosines, cap, n) =~= Seq::new(n, |i: int| i));
    }
}

/// The wildcard lies behind the first `top_n`. It comes from a source that those do
/// not have, if there is one behind them, and then is the first such; otherwise it is
/// the very next item.
pub proof fn wildcard_widens_the_sources(ranked: Seq<ItemView>, top_n: int, i: int)
    requires
        is_wildcard(ranked, top_n, i),
        0 <= top_n,
    ensures
        top_n <= i < ranked.len(),
        forall|k: int|
            top_n <= k < i ==> exists|j: int|
                0 <= j < top_n && (#[trigger] ranked[j]).source_id == (#[trigger] ranked[k]).source_id,
        i > top_n ==> forall|j: int| 0 <= j < top_n ==> (#[trigger] ranked[j]).source_id != ranked[i].source_id,
        (exists|j: int| 0 <= j < top_n && (#[trigger] ranked[j]).source_id == ranked[i].source_id) ==> forall|k: int|
            top_n <= k < ranked.len() ==> exists|j: int|
                0 <= j < top_n && (#[trigger] ranked[j]).source_id == (#[trigger] ranked[k]).source_id,
{
    assert forall|k: int| top_n <= k < i implies exists|j: int|
        0 <= j < top_n && (#[trigger] ranked[j]).source_id == (#[trigger] ranked[k]).source_id by {
        assert(source_among(ranked, top_n, ranked[k].source_id));
    }
    if exists|j: int| 0 <= j < top_n && (#[trigger] ranked[j]).source_id == ranked[i].source_id {
        assert(source_among(ranked, top_n, ranked[i].source_id));
        assert forall|k: int| top_n <= k < ranked.len() implies exists|j: int|
            0 <= j < top_n && (#[trigger] ranked[j]).source_id == (#[trigger] ranked[k]).source_id by {
            assert(source_among(ranked, top_n, ranked[k].source_id));
        }
    }
}

} // verus!
