//! Taking in the sources: a feed is parsed into entries, an entry becomes an item.

use crate::briefing::{push_item, ContentItem, ItemView, Timestamp};
use crate::markup::{check_tame, is_tame};
use crate::text::{clone_opt, opt_text, views};
use vstd::prelude::*;

verus! {

/// A source of items: a feed at an address.
#[derive(Debug)]
pub struct Source {
    pub id: String,
    pub url: String,
}

/// An entry of a feed, as far as it is used.
#[derive(Debug)]
pub struct FeedEntry {
    pub id: String,
    pub title: Option<String>,
    pub links: Vec<String>,
    pub summary: Option<String>,
    pub published: Option<Timestamp>,
}

/// What the bytes of a feed say of an entry. The identifier is what the feed
/// gives, or else a hash of the first link and the title; an entry with neither
/// has none of its own.
#[verifier::ext_equal]
pub struct EntryView {
    pub id: Option<Seq<char>>,
    pub title: Option<Seq<char>>,
    pub links: Seq<Seq<char>>,
    pub summary: Option<Seq<char>>,
    pub published: Option<Timestamp>,
}

/// Whether an entry is the one described; where the description has no
/// identifier, the entry may have any.
pub open spec fn is_entry(e: FeedEntry, v: EntryView) -> bool {
    &&& v.id is Some ==> v.id == Some(e.id@)
    &&& v.title == opt_text(e.title)
    &&& v.links == views(e.links@)
    &&& v.summary == opt_text(e.summary)
    &&& v.published == e.published
}

/// The entries that `feed_rs` finds in the bytes of a feed; none if they are no feed.
pub uninterp spec fn feed_entries(bytes: Seq<u8>) -> Option<Seq<EntryView>>;

/// `feed_rs::parser::parse` on the bytes of a feed. The entries depend on the
/// bytes alone, but for the identifier of an entry that has neither an
/// identifier nor a link: it gets a random one. On bytes that are not tame the
/// function can panic or run out of stack.
#[verifier::external_body]
fn parse_feed(bytes: &Vec<u8>) -> (r: Option<Vec<FeedEntry>>)
    requires
        is_tame(bytes@),
    ensures
        r is Some == feed_entries(bytes@) is Some,
        r is Some ==> r->0@.len() == feed_entries(bytes@)->0.len(),
        r is Some ==> forall|i: int|
            0 <= i < r->0@.len() ==> is_entry(#[trigger] r->0@[i], feed_entries(bytes@)->0[i]) && (
            feed_entries(bytes@)->0[i].links.len() > 0 ==> feed_entries(bytes@)->0[i].id is Some),
{
    let feed = feed_rs::parser::parse(&bytes[..]).ok()?;
    let convert = |e: feed_rs::model::Entry| FeedEntry {
        id: e.id,
        title: e.title.map(|t| t.content),
        links: e.links.into_iter().map(|l| l.href).collect(),
        summary: e.summary.map(|t| t.content),
        published: e.published.map(|d| Timestamp { seconds: d.timestamp(), nanos: d.timestamp_subsec_nanos() }),
    };
    Some(feed.entries.into_iter().map(convert).collect())
}

/// The address of an entry: its first link.
pub open spec fn entry_url(links: Seq<Seq<char>>) -> Seq<char> {
    if links.len() > 0 {
        links[0]
    } else {
        seq![]
    }
}

/// The item of an entry. Its address identifies it; where it has none, the
/// identifier of the entry does.
pub open spec fn entry_item(
    source: Seq<char>,
    id: Seq<char>,
    title: Option<Seq<char>>,
    links: Seq<Seq<char>>,
    summary: Option<Seq<char>>,
    published: Option<Timestamp>,
) -> ItemView {
    let url = entry_url(links);
    ItemView {
        id: if url.len() == 0 {
            id
        } else {
            url
        },
        source_id: source,
        title: match title {
            Some(t) => t,
            None => seq![],
        },
        url,
        published_at: published,
        raw_summary: summary,
        summary: None,
        topics: seq![],
        entities: seq![],
        embedding: None,
    }
}

/// The item of an entry.
pub open spec fn item_for(source: Seq<char>, e: FeedEntry) -> ItemView {
    entry_item(source, e.id@, opt_text(e.title), views(e.links@), opt_text(e.summary), e.published)
}

/// Makes an item of an entry.
pub fn normalize_entry(source: &Source, e: &FeedEntry) -> (r: ContentItem)
    ensures
        r@ == item_for(source.id@, *e),
{
    let url: String = if e.links.len() > 0 {
        assert(views(e.links@)[0] == e.links@[0]@);
        e.links[0].clone()
    } else {
        String::new()
    };
    let id: String = if url.as_str().is_empty() {
        e.id.clone()
    } else {
        url.clone()
    };
    let title: String = match &e.title {
        Some(t) => t.clone(),
        None => String::new(),
    };
    let topics: Vec<String> = Vec::new();
    let entities: Vec<String> = Vec::new();
    assert(views(topics@) =~= seq![] && views(entities@) =~= seq![]);
    ContentItem {
        id,
        source_id: source.id.clone(),
        title,
        url,
        published_at: e.published,
        raw_summary: clone_opt(&e.summary),
        summary: None,
        topics,
        entities,
        embedding: None,
    }
}

/// Makes items of entries.
pub fn normalize_entries(source: &Source, entries: &Vec<FeedEntry>) -> (r: Vec<ContentItem>)
    ensures
        views(r@) == Seq::new(entries@.len(), |i: int| item_for(source.id@, entries@[i])),
{
    let mut out: Vec<ContentItem> = Vec::new();
    let mut i: usize = 0;
    while i < entries.len()
        invariant
            i <= entries@.len(),
            out@.len() == i,
            forall|k: int| 0 <= k < i ==> (#[trigger] out@[k])@ == item_for(source.id@, entries@[k]),
        decreases entries.len() - i,
    {
        push_item(&mut out, normalize_entry(source, &entries[i]));
        i = i + 1;
    }
    assert(views(out@) =~= Seq::new(entries@.len(), |k: int| item_for(source.id@, entries@[k])));
    out
}

/// Whether an item is the one that a described entry becomes.
pub open spec fn is_item(it: ItemView, source: Seq<char>, v: EntryView) -> bool {
    it == entry_item(
        source,
        match v.id {
            Some(id) => id,
            None => it.id,
        },
        v.title,
        v.links,
        v.summary,
        v.published,
    )
}

/// Reads the items off the bytes of a feed; none if they are no feed, or none
/// that the parser can take.
pub fn fetch_one(source: &Source, bytes: &Vec<u8>) -> (r: Option<Vec<ContentItem>>)
    ensures
        r is Some == (is_tame(bytes@) && feed_entries(bytes@) is Some),
        r is Some ==> r->0@.len() == feed_entries(bytes@)->0.len(),
        r is Some ==> forall|i: int|
            0 <= i < r->0@.len() ==> is_item((#[trigger] r->0@[i])@, source.id@, feed_entries(bytes@)->0[i]),
{
    if !check_tame(bytes) {
        return None;
    }
    match parse_feed(bytes) {
        Some(entries) => {
            let items = normalize_entries(source, &entries);
            proof {
                let named = feed_entries(bytes@)->0;
                assert(items@.len() == views(items@).len() == entries@.len());
                assert forall|i: int| 0 <= i < items@.len() implies is_item(
                    (#[trigger] items@[i])@,
                    source.id@,
                    named[i],
                ) by {
                    assert(views(items@)[i] == item_for(source.id@, entries@[i]));
                    assert(is_entry(entries@[i], named[i]));
                }
            }
            Some(items)
        },
        None => None,
    }
}

/// The items of the sources that could be read, in the order of the sources.
pub open spec fn all_items(got: Seq<Option<Vec<ContentItem>>>) -> Seq<ItemView>
    decreases got.len(),
{
    if got.len() == 0 {
        seq![]
    } else {
        all_items(got.drop_last()) + match got.last() {
            Some(v) => views(v@),
            None => seq![],
        }
    }
}

/// Gathers the items of all sources. A source that could not be read is passed
/// over: a broken feed does not prevent the briefing.
pub fn fetch_all(got: Vec<Option<Vec<ContentItem>>>) -> (r: Vec<ContentItem>)
    ensures
        views(r@) == all_items(got@),
{
    let mut out: Vec<ContentItem> = Vec::new();
    let mut i: usize = 0;
    assert(views(out@) =~= seq![]);
    while i < got.len()
        invariant
            i <= got@.len(),
            views(out@) == all_items(got@.take(i as int)),
        decreases got.len() - i,
    {
        proof {
            assert(got@.take(i + 1).drop_last() =~= got@.take(i as int));
            assert(got@.take(i + 1).last() == got@[i as int]);
        }
        let ghost before = views(out@);
        match &got[i] {
            Some(items) => {
                let ghost here = views(items@);
                let mut k: usize = 0;
                assert(before + here.take(0) =~= before);
                while k < items.len()
                    invariant
                        k <= items@.len(),
                        here == views(items@),
                        views(out@) == before + here.take(k as int),
                    decreases items.len() - k,
                {
                    push_item(&mut out, items[k].clone());
                    assert(before + here.take(k + 1) =~= (before + here.take(k as int)).push(here[k as int]));
                    k = k + 1;
                }
                assert(here.take(k as int) =~= here);
            },
            None => {
                assert(before + seq![] =~= before);
            },
        }
        i = i + 1;
    }
    assert(got@.take(i as int) =~= got@);
    out
}

/// An entry becomes the item that its feed describes: under its first link, or under
/// its own identifier where it has none, with its title, its text and its instant, and
/// nothing that only a model could say of it.
pub proof fn entry_becomes_an_item(
    source: Seq<char>,
    id: Seq<char>,
    title: Option<Seq<char>>,
    links: Seq<Seq<char>>,
    summary: Option<Seq<char>>,
    published: Option<Timestamp>,
)
    ensures
        ({
            let it = entry_item(source, id, title, links, summary, published);
            &&& it.source_id == source
            &&& title is Some ==> it.title == title->0
            &&& title is None ==> it.title.len() == 0
            &&& links.len() > 0 ==> it.url == links[0]
            &&& links.len() == 0 ==> it.url.len() == 0
            &&& links.len() > 0 && links[0].len() > 0 ==> it.id == links[0]
            &&& links.len() == 0 || links[0].len() == 0 ==> it.id == id
            &&& it.published_at == published
            &&& it.raw_summary == summary
            &&& it.summary is None && it.embedding is None && it.topics.len() == 0 && it.entities.len() == 0
        }),
{
}

/// Every source that could be read gives all its items, in the order of the sources;
/// one that could not be read takes nothing from the others.
pub proof fn failed_sources_are_passed_over(
    a: Seq<Option<Vec<ContentItem>>>,
    b: Seq<Option<Vec<ContentItem>>>,
    one: Vec<ContentItem>,
)
    ensures
        all_items(a + b) == all_items(a) + all_items(b),
        all_items(seq![Some(one)]) == views(one@),
        all_items(seq![None]).len() == 0,
    decreases b.len(),
{
    let some = seq![Some(one)];
    let none = seq![None::<Vec<ContentItem>>];
    assert(some.drop_last() =~= Seq::empty());
    assert(none.drop_last() =~= Seq::empty());
    assert(all_items(Seq::empty()) =~= Seq::<ItemView>::empty());
    assert(all_items(some) =~= views(one@));
    assert(all_items(none) =~= Seq::<ItemView>::empty());
    if b.len() == 0 {
        assert(a + b =~= a);
        assert(all_items(a) + all_items(b) =~= all_items(a));
    } else {
        failed_sources_are_passed_over(a, b.drop_last(), one);
        assert((a + b).drop_last() =~= a + b.drop_last());
        assert(all_items(a + b) =~= all_items(a) + all_items(b));
    }
}

} // verus!
