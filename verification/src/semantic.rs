//! Semantic nearness of items: one story from several sources is told once.
//!
//! How near two embeddings are, their cosine, is computed outside; here it is
//! decided what follows. An item without an embedding is near to no other.

use crate::briefing::{push_item, ContentItem, ItemView};
use crate::score::{is_nearest, significand_shows_nearest, Score};
use crate::text::views;
use vstd::prelude::*;

verus! {

/// From this cosine on, 0.92, two items are the same story. By its place among the doubles.
pub const DEDUP_SIMILARITY: i64 = 0x3fed_70a3_d70a_3d71;

/// From this cosine on, 0.85, two items are about the same theme. By its place among the doubles.
pub const DIVERSITY_SIMILARITY: i64 = 0x3feb_3333_3333_3333;

/// What the embedding model wants in front of a text that is to be compared.
pub const EMBED_PREFIX: &'static str = "clustering: ";

/// The text of an item that is embedded: its title and the summary of its feed.
pub open spec fn embedded_text(item: ItemView) -> Seq<char> {
    match item.raw_summary {
        Some(raw) => EMBED_PREFIX@ + item.title + "\n"@ + raw,
        None => EMBED_PREFIX@ + item.title,
    }
}

/// Writes the text of an item that is embedded.
pub fn embed_text(it: &ContentItem) -> (r: String)
    ensures
        r@ == embedded_text(it@),
{
    let mut out = String::new();
    out.append(EMBED_PREFIX);
    out.append(&it.title);
    match &it.raw_summary {
        Some(raw) => {
            out.append("\n");
            out.append(raw);
        },
        None => {},
    }
    assert(out@ =~= embedded_text(it@));
    out
}

/// How similar two items are: the cosine of their embeddings, if both have one.
pub open spec fn similarity(a: ItemView, b: ItemView, cosine: Score) -> Option<Score> {
    if a.embedding is Some && b.embedding is Some {
        Some(cosine)
    } else {
        None
    }
}

/// How similar two items are whose embeddings have the given cosine.
pub fn item_similarity(a: &ContentItem, b: &ContentItem, cosine: Score) -> (r: Option<Score>)
    ensures
        r == similarity(a@, b@, cosine),
{
    match (&a.embedding, &b.embedding) {
        (Some(_), Some(_)) => Some(cosine),
        _ => None,
    }
}

/// Whether two items are at least as similar as the threshold.
pub open spec fn near(a: ItemView, b: ItemView, cosine: Score, threshold: Score) -> bool {
    match similarity(a, b, cosine) {
        Some(s) => s.place >= threshold.place,
        None => false,
    }
}

/// Whether an item is too near to one of the kept items; `cosines` holds its
/// cosine with each of them.
pub fn too_similar(it: &ContentItem, kept: &Vec<ContentItem>, cosines: &Vec<Score>, threshold: Score) -> (r: bool)
    requires
        cosines@.len() == kept@.len(),
    ensures
        r == exists|k: int| 0 <= k < kept@.len() && near(#[trigger] views(kept@)[k], it@, cosines@[k], threshold),
{
    let mut k: usize = 0;
    while k < kept.len()
        invariant
            k <= kept@.len(),
            cosines@.len() == kept@.len(),
            forall|j: int| 0 <= j < k ==> !near(#[trigger] views(kept@)[j], it@, cosines@[j], threshold),
        decreases kept.len() - k,
    {
        match item_similarity(&kept[k], it, cosines[k]) {
            Some(s) => {
                if !s.less(threshold) {
                    assert(near(views(kept@)[k as int], it@, cosines@[k as int], threshold));
                    return true;
                }
            },
            None => {},
        }
        k = k + 1;
    }
    false
}

/// Whether the table holds a cosine for every pair of `n` items.
pub open spec fn is_table(cosines: Seq<Vec<Score>>, n: nat) -> bool {
    cosines.len() == n && forall|i: int| 0 <= i < n ==> (#[trigger] cosines[i])@.len() == n
}

/// Whether the items at the places `a` and `b` are the same story.
pub open spec fn same_story(items: Seq<ItemView>, cosines: Seq<Vec<Score>>, threshold: Score, a: int, b: int) -> bool {
    near(items[a], items[b], cosines[a]@[b], threshold)
}

/// The places of the items that are kept out of the first `n`: those that are
/// not the same story as one kept before.
pub open spec fn kept_places(items: Seq<ItemView>, cosines: Seq<Vec<Score>>, threshold: Score, n: nat) -> Seq<int>
    decreases n,
{
    if n == 0 {
        seq![]
    } else {
        let before = kept_places(items, cosines, threshold, (n - 1) as nat);
        if near_any(items, cosines, threshold, before, n - 1) {
            before
        } else {
            before.push(n - 1)
        }
    }
}

/// The items at some places.
pub open spec fn at_places(items: Seq<ItemView>, places: Seq<int>) -> Seq<ItemView> {
    Seq::new(places.len(), |i: int| items[places[i]])
}

/// Places as numbers.
pub open spec fn as_ints(places: Seq<usize>) -> Seq<int> {
    Seq::new(places.len(), |i: int| places[i] as int)
}

/// Whether the item at a place is too near to one of the items at other places.
pub open spec fn near_any(
    items: Seq<ItemView>,
    cosines: Seq<Vec<Score>>,
    threshold: Score,
    places: Seq<int>,
    i: int,
) -> bool {
    exists|k: int| 0 <= k < places.len() && same_story(items, cosines, threshold, #[trigger] places[k], i)
}

/// Decides `near_any`; `kept` holds the items at the places.
pub fn is_near_kept(
    items: &Vec<ContentItem>,
    cosines: &Vec<Vec<Score>>,
    threshold: Score,
    kept: &Vec<ContentItem>,
    places: &Vec<usize>,
    i: usize,
) -> (r: bool)
    requires
        is_table(cosines@, items@.len()),
        i < items@.len(),
        forall|k: int| 0 <= k < places@.len() ==> (#[trigger] places@[k]) < items@.len(),
        views(kept@) == at_places(views(items@), as_ints(places@)),
    ensures
        r == near_any(views(items@), cosines@, threshold, as_ints(places@), i as int),
{
    let ghost all = views(items@);
    let ghost before = as_ints(places@);
    assert(kept@.len() == views(kept@).len());
    let mut row: Vec<Score> = Vec::new();
    let mut k: usize = 0;
    while k < places.len()
        invariant
            k <= places@.len(),
            i < items@.len(),
            is_table(cosines@, items@.len()),
            forall|j: int| 0 <= j < places@.len() ==> (#[trigger] places@[j]) < items@.len(),
            row@.len() == k,
            forall|j: int| 0 <= j < k ==> (#[trigger] row@[j]) == cosines@[places@[j] as int]@[i as int],
        decreases places.len() - k,
    {
        row.push(cosines[places[k]][i]);
        k = k + 1;
    }
    let near_one = too_similar(&items[i], kept, &row, threshold);
    proof {
        if near_one {
            let k = choose|k: int|
                0 <= k < kept@.len() && near(#[trigger] views(kept@)[k], all[i as int], row@[k], threshold);
            assert(views(kept@)[k] == all[before[k]]);
            assert(row@[k] == cosines@[places@[k] as int]@[i as int]);
            assert(same_story(all, cosines@, threshold, before[k], i as int));
        } else {
            assert forall|k: int| 0 <= k < before.len() implies !same_story(
                all,
                cosines@,
                threshold,
                #[trigger] before[k],
                i as int,
            ) by {
                assert(!near(views(kept@)[k], all[i as int], row@[k], threshold));
                assert(before[k] == places@[k]);
                assert(views(kept@)[k] == all[before[k]]);
                assert(row@[k] == cosines@[places@[k] as int]@[i as int]);
            }
        }
    }
    near_one
}

/// Collapses near repetitions in a ranked list: the earlier item stays, later
/// items of the same story fall out. `cosines` holds the cosine of every pair.
pub fn collapse_near_duplicates(items: &Vec<ContentItem>, cosines: &Vec<Vec<Score>>, threshold: Score) -> (r: Vec<
    ContentItem,
>)
    requires
        is_table(cosines@, items@.len()),
    ensures
        views(r@) == at_places(
            views(items@),
            kept_places(views(items@), cosines@, threshold, items@.len()),
        ),
{
    let ghost all = views(items@);
    let mut kept: Vec<ContentItem> = Vec::new();
    let mut places: Vec<usize> = Vec::new();
    let mut i: usize = 0;
    assert(as_ints(places@) =~= seq![]);
    assert(views(kept@) =~= at_places(all, seq![]));
    while i < items.len()
        invariant
            i <= items@.len(),
            all == views(items@),
            is_table(cosines@, items@.len()),
            forall|k: int| 0 <= k < places@.len() ==> (#[trigger] places@[k]) < i,
            as_ints(places@) == kept_places(all, cosines@, threshold, i as nat),
            views(kept@) == at_places(all, as_ints(places@)),
        decreases items.len() - i,
    {
        let ghost before = as_ints(places@);
        if !is_near_kept(items, cosines, threshold, &kept, &places, i) {
            push_item(&mut kept, items[i].clone());
            places.push(i);
            assert(as_ints(places@) =~= before.push(i as int));
            assert(views(kept@) =~= at_places(all, before.push(i as int)));
        }
        i = i + 1;
    }
    kept
}

/// What is kept keeps its order, and is kept once.
pub proof fn kept_in_order(items: Seq<ItemView>, cosines: Seq<Vec<Score>>, threshold: Score, n: nat)
    ensures
        forall|k: int|
            0 <= k < kept_places(items, cosines, threshold, n).len() ==> 0 <= (#[trigger] kept_places(
                items,
                cosines,
                threshold,
                n,
            )[k]) < n,
        forall|j: int, k: int|
            0 <= j < k < kept_places(items, cosines, threshold, n).len() ==> (#[trigger] kept_places(
                items,
                cosines,
                threshold,
                n,
            )[j]) < (#[trigger] kept_places(items, cosines, threshold, n)[k]),
    decreases n,
{
    if n > 0 {
        let all = kept_places(items, cosines, threshold, n);
        let before = kept_places(items, cosines, threshold, (n - 1) as nat);
        kept_in_order(items, cosines, threshold, (n - 1) as nat);
        assert(all == before || all == before.push(n - 1));
        assert forall|k: int| 0 <= k < all.len() implies 0 <= (#[trigger] all[k]) < n by {
            if k < before.len() {
                assert(all[k] == before[k]);
            }
        }
        assert forall|j: int, k: int| 0 <= j < k < all.len() implies (#[trigger] all[j]) < (#[trigger] all[k]) by {
            assert(all[j] == before[j]);
            if k < before.len() {
                assert(all[k] == before[k]);
            }
        }
    }
}

/// No two of the kept items are the same story.
pub proof fn kept_are_apart(items: Seq<ItemView>, cosines: Seq<Vec<Score>>, threshold: Score, n: nat, j: int, k: int)
    requires
        0 <= j < k < kept_places(items, cosines, threshold, n).len(),
    ensures
        !same_story(
            items,
            cosines,
            threshold,
            kept_places(items, cosines, threshold, n)[j],
            kept_places(items, cosines, threshold, n)[k],
        ),
    decreases n,
{
    let before = kept_places(items, cosines, threshold, (n - 1) as nat);
    if k < before.len() {
        kept_are_apart(items, cosines, threshold, (n - 1) as nat, j, k);
    } else {
        assert(kept_places(items, cosines, threshold, n)[j] == before[j]);
    }
}

/// An item that falls out is the same story as a kept item before it: the item
/// of higher rank stays.
pub proof fn dropped_repeats_an_earlier(
    items: Seq<ItemView>,
    cosines: Seq<Vec<Score>>,
    threshold: Score,
    n: nat,
    i: int,
)
    requires
        0 <= i < n,
        !kept_places(items, cosines, threshold, n).contains(i),
    ensures
        exists|k: int|
            0 <= k < kept_places(items, cosines, threshold, n).len() && (#[trigger] kept_places(
                items,
                cosines,
                threshold,
                n,
            )[k]) < i && same_story(items, cosines, threshold, kept_places(items, cosines, threshold, n)[k], i),
    decreases n,
{
    let all = kept_places(items, cosines, threshold, n);
    let before = kept_places(items, cosines, threshold, (n - 1) as nat);
    kept_in_order(items, cosines, threshold, (n - 1) as nat);
    if i < n - 1 {
        assert(!before.contains(i)) by {
            if before.contains(i) {
                let k = choose|k: int| 0 <= k < before.len() && before[k] == i;
                assert(all[k] == i);
            }
        }
        dropped_repeats_an_earlier(items, cosines, threshold, (n - 1) as nat, i);
        let k = choose|k: int|
            0 <= k < before.len() && (#[trigger] before[k]) < i && same_story(items, cosines, threshold, before[k], i);
        assert(all[k] == before[k]);
    } else if all == before.push(n - 1) {
        assert(all[before.len() as int] == i);
    } else {
        let k = choose|k: int|
            0 <= k < before.len() && same_story(items, cosines, threshold, #[trigger] before[k], n - 1);
        assert(all[k] < i);
    }
}

/// An item without an embedding is always kept.
pub proof fn unembedded_is_kept(items: Seq<ItemView>, cosines: Seq<Vec<Score>>, threshold: Score, n: nat, i: int)
    requires
        0 <= i < n,
        items[i].embedding is None,
    ensures
        kept_places(items, cosines, threshold, n).contains(i),
{
    if !kept_places(items, cosines, threshold, n).contains(i) {
        dropped_repeats_an_earlier(items, cosines, threshold, n, i);
    }
}

/// Gives each item its embedding, or none where the embedding model has none for it.
pub fn with_embeddings(items: Vec<ContentItem>, embeddings: Vec<Option<Vec<u32>>>) -> (r: Vec<ContentItem>)
    requires
        embeddings@.len() == items@.len(),
    ensures
        r@.len() == items@.len(),
        forall|i: int|
            0 <= i < r@.len() ==> (#[trigger] r@[i])@ == (ItemView {
                embedding: crate::briefing::opt_components(embeddings@[i]),
                ..items@[i]@
            }),
{
    let mut out: Vec<ContentItem> = Vec::new();
    let mut i: usize = 0;
    while i < items.len()
        invariant
            i <= items@.len(),
            embeddings@.len() == items@.len(),
            out@.len() == i,
            forall|k: int|
                0 <= k < i ==> (#[trigger] out@[k])@ == (ItemView {
                    embedding: crate::briefing::opt_components(embeddings@[k]),
                    ..items@[k]@
                }),
        decreases items.len() - i,
    {
        let mut item = items[i].clone();
        item.embedding = crate::briefing::clone_components(&embeddings[i]);
        push_item(&mut out, item);
        i = i + 1;
    }
    out
}

/// An item is kept exactly where no kept item before it is embedded like it with a
/// cosine from the threshold on. What is kept stands in its order.
pub proof fn item_falls_out_for_an_earlier_one(items: Seq<ItemView>, cosines: Seq<Vec<Score>>, threshold: Score, n: nat)
    ensures
        ({
            let kept = kept_places(items, cosines, threshold, n);
            &&& forall|i: int, j: int| 0 <= i < j < kept.len() ==> (#[trigger] kept[i]) < (#[trigger] kept[j])
            &&& forall|i: int| 0 <= i < kept.len() ==> 0 <= (#[trigger] kept[i]) < n
            &&& forall|i: int|
                0 <= i < n ==> (#[trigger] kept.contains(i) <==> forall|j: int|
                    kept.contains(j) && j < i && items[j].embedding is Some && items[i].embedding is Some
                        ==> (#[trigger] cosines[j])@[i].place < threshold.place)
        }),
    decreases n,
{
    let kept = kept_places(items, cosines, threshold, n);
    kept_in_order(items, cosines, threshold, n);
    if n > 0 {
        let m = n - 1;
        let f = kept_places(items, cosines, threshold, m as nat);
        item_falls_out_for_an_earlier_one(items, cosines, threshold, m as nat);
        let out = near_any(items, cosines, threshold, f, m);
        assert forall|i: int| #[trigger] kept.contains(i) <==> f.contains(i) || (!out && i == m) by {
            if f.contains(i) {
                let k = choose|k: int| 0 <= k < f.len() && f[k] == i;
                assert(kept[k] == i);
            }
            if !out {
                assert(kept[kept.len() - 1] == m);
            }
        }
        assert forall|i: int| 0 <= i < n implies (#[trigger] kept.contains(i) <==> forall|j: int|
            kept.contains(j) && j < i && items[j].embedding is Some && items[i].embedding is Some
                ==> (#[trigger] cosines[j])@[i].place < threshold.place) by {
            if i < m {
                assert(f.contains(i) <==> forall|j: int|
                    f.contains(j) && j < i && items[j].embedding is Some && items[i].embedding is Some
                        ==> (#[trigger] cosines[j])@[i].place < threshold.place);
                assert(forall|j: int| j < i ==> (#[trigger] kept.contains(j) <==> f.contains(j)));
            } else if out {
                let k = choose|k: int| 0 <= k < f.len() && same_story(items, cosines, threshold, #[trigger] f[k], m);
                assert(f.contains(f[k]));
                assert(kept.contains(f[k]));
                assert(cosines[f[k]]@[i].place >= threshold.place);
                assert(!f.contains(m)) by {
                    if f.contains(m) {
                        let q = choose|q: int| 0 <= q < f.len() && f[q] == m;
                        assert(f[q] < m);
                    }
                }
            } else {
                assert forall|j: int|
                    kept.contains(j) && j < i && items[j].embedding is Some && items[i].embedding is Some implies (
                #[trigger] cosines[j])@[i].place < threshold.place by {
                    assert(f.contains(j));
                    let k = choose|k: int| 0 <= k < f.len() && f[k] == j;
                    assert(!same_story(items, cosines, threshold, f[k], m));
                }
            }
        }
    }
}

/// Items are compared by what their feed says of them: the title, and behind it, on a
/// line of its own, the summary where there is one.
pub proof fn items_are_compared_by_their_feed_text(a: ItemView, b: ItemView)
    ensures
        a.title == b.title && a.raw_summary == b.raw_summary ==> embedded_text(a) == embedded_text(b),
        embedded_text(a).skip(EMBED_PREFIX@.len() as int) == (if a.raw_summary is Some {
            a.title + "\n"@ + a.raw_summary->0
        } else {
            a.title
        }),
        EMBED_PREFIX@.is_prefix_of(embedded_text(a)),
{
    let t = embedded_text(a);
    if a.raw_summary is Some {
        assert(t.skip(EMBED_PREFIX@.len() as int) =~= a.title + "\n"@ + a.raw_summary->0);
    } else {
        assert(t.skip(EMBED_PREFIX@.len() as int) =~= a.title);
    }
    assert(t.take(EMBED_PREFIX@.len() as int) =~= EMBED_PREFIX@);
}

/// Items are one story from a cosine of 0.92 on, and too much alike for one briefing
/// from 0.85 on.
pub proof fn limits_of_similarity()
    ensures
        is_nearest(Score { place: DEDUP_SIMILARITY }, 92, 100),
        is_nearest(Score { place: DIVERSITY_SIMILARITY }, 85, 100),
{
    significand_shows_nearest(Score { place: DEDUP_SIMILARITY }, 3, 8, 0x1d70a3d70a3d71, 92, 100);
    significand_shows_nearest(Score { place: DIVERSITY_SIMILARITY }, 3, 8, 0x1b333333333333, 85, 100);
}

/// Two items can only be near where both are embedded, and then from the threshold on.
pub proof fn near_items_are_embedded(a: ItemView, b: ItemView, cosine: Score, threshold: Score)
    ensures
        near(a, b, cosine, threshold) <==> a.embedding is Some && b.embedding is Some && cosine.place
            >= threshold.place,
        similarity(a, b, cosine) == similarity(b, a, cosine),
        similarity(a, b, cosine) is Some ==> similarity(a, b, cosine) == Some(cosine),
        similarity(a, b, cosine) is Some <==> a.embedding is Some && b.embedding is Some,
{
}

} // verus!
