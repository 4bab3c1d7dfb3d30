//! The briefing: items from the sources, sections of items, the briefing of a day.

use crate::text::{clone_opt, clone_texts, opt_text, views};
use vstd::prelude::*;

verus! {

/// An instant: seconds since the beginning of 1970 in UTC, and nanoseconds
/// within the second (more than a thousand million of them in a leap second).
#[derive(Clone, Copy, Debug, PartialEq, Eq, Structural)]
pub struct Timestamp {
    pub seconds: i64,
    pub nanos: u32,
}

/// An item of content from a source, enriched on its way through the pipeline.
#[derive(Debug)]
pub struct ContentItem {
    /// Stable identifier: the address, or what the feed gives where there is none.
    pub id: String,
    pub source_id: String,
    pub title: String,
    pub url: String,
    pub published_at: Option<Timestamp>,
    /// The summary that the feed carried.
    pub raw_summary: Option<String>,
    /// The one-sentence summary that a model wrote.
    pub summary: Option<String>,
    /// The topic tags that a model gave.
    pub topics: Vec<String>,
    pub entities: Vec<String>,
    /// The embedding, each component as the bit pattern of a single-precision number.
    pub embedding: Option<Vec<u32>>,
}

/// What a content item is.
#[verifier::ext_equal]
pub struct ItemView {
    pub id: Seq<char>,
    pub source_id: Seq<char>,
    pub title: Seq<char>,
    pub url: Seq<char>,
    pub published_at: Option<Timestamp>,
    pub raw_summary: Option<Seq<char>>,
    pub summary: Option<Seq<char>>,
    pub topics: Seq<Seq<char>>,
    pub entities: Seq<Seq<char>>,
    pub embedding: Option<Seq<u32>>,
}

/// The view of an optional embedding.
pub open spec fn opt_components(o: Option<Vec<u32>>) -> Option<Seq<u32>> {
    match o {
        Some(v) => Some(v@),
        None => None,
    }
}

impl View for ContentItem {
    type V = ItemView;

    open spec fn view(&self) -> ItemView {
        ItemView {
            id: self.id@,
            source_id: self.source_id@,
            title: self.title@,
            url: self.url@,
            published_at: self.published_at,
            raw_summary: opt_text(self.raw_summary),
            summary: opt_text(self.summary),
            topics: views(self.topics@),
            entities: views(self.entities@),
            embedding: opt_components(self.embedding),
        }
    }
}

/// A copy of an embedding.
pub fn clone_components(o: &Option<Vec<u32>>) -> (r: Option<Vec<u32>>)
    ensures
        opt_components(r) == opt_components(*o),
{
    match o {
        Some(v) => {
            let mut out: Vec<u32> = Vec::new();
            let mut i: usize = 0;
            while i < v.len()
                invariant
                    i <= v@.len(),
                    out@ == v@.take(i as int),
                decreases v.len() - i,
            {
                out.push(v[i]);
                assert(v@.take(i + 1) =~= v@.take(i as int).push(v@[i as int]));
                i = i + 1;
            }
            assert(v@.take(i as int) =~= v@);
            Some(out)
        },
        None => None,
    }
}

impl Clone for ContentItem {
    fn clone(&self) -> (r: Self)
        ensures
            r@ == self@,
    {
        ContentItem {
            id: self.id.clone(),
            source_id: self.source_id.clone(),
            title: self.title.clone(),
            url: self.url.clone(),
            published_at: self.published_at,
            raw_summary: clone_opt(&self.raw_summary),
            summary: clone_opt(&self.summary),
            topics: clone_texts(&self.topics),
            entities: clone_texts(&self.entities),
            embedding: clone_components(&self.embedding),
        }
    }
}

/// A section of a briefing.
#[derive(Debug)]
pub struct BriefingSection {
    pub id: String,
    pub title: String,
    pub items: Vec<ContentItem>,
}

/// What a section is.
#[verifier::ext_equal]
pub struct SectionView {
    pub id: Seq<char>,
    pub title: Seq<char>,
    pub items: Seq<ItemView>,
}

impl View for BriefingSection {
    type V = SectionView;

    open spec fn view(&self) -> SectionView {
        SectionView { id: self.id@, title: self.title@, items: views(self.items@) }
    }
}

/// A copy of a list of items.
pub fn clone_items(list: &Vec<ContentItem>) -> (r: Vec<ContentItem>)
    ensures
        views(r@) == views(list@),
{
    let mut out: Vec<ContentItem> = Vec::new();
    let mut i: usize = 0;
    while i < list.len()
        invariant
            i <= list@.len(),
            views(out@) == views(list@).take(i as int),
        decreases list.len() - i,
    {
        push_item(&mut out, list[i].clone());
        assert(views(list@).take(i + 1) =~= views(list@).take(i as int).push(list@[i as int]@));
        i = i + 1;
    }
    assert(views(list@).take(i as int) =~= views(list@));
    out
}

/// Puts an item behind a list.
pub fn push_item(list: &mut Vec<ContentItem>, item: ContentItem)
    ensures
        final(list)@ == old(list)@.push(item),
        views(final(list)@) == views(old(list)@).push(item@),
{
    list.push(item);
    assert(views(list@) =~= views(old(list)@).push(item@));
}

impl Clone for BriefingSection {
    fn clone(&self) -> (r: Self)
        ensures
            r@ == self@,
    {
        BriefingSection {
            id: self.id.clone(),
            title: self.title.clone(),
            items: clone_items(&self.items),
        }
    }
}

/// The briefing of a day.
#[derive(Debug)]
pub struct Briefing {
    pub date: String,
    /// The three things of the day.
    pub tldr: Vec<String>,
    pub sections: Vec<BriefingSection>,
}

/// What a briefing is.
#[verifier::ext_equal]
pub struct BriefingView {
    pub date: Seq<char>,
    pub tldr: Seq<Seq<char>>,
    pub sections: Seq<SectionView>,
}

impl View for Briefing {
    type V = BriefingView;

    open spec fn view(&self) -> BriefingView {
        BriefingView {
            date: self.date@,
            tldr: views(self.tldr@),
            sections: views(self.sections@),
        }
    }
}

/// Puts a section behind a list.
pub fn push_section(list: &mut Vec<BriefingSection>, section: BriefingSection)
    ensures
        final(list)@ == old(list)@.push(section),
        views(final(list)@) == views(old(list)@).push(section@),
{
    list.push(section);
    assert(views(list@) =~= views(old(list)@).push(section@));
}

/// A copy of a list of sections.
pub fn clone_sections(list: &Vec<BriefingSection>) -> (r: Vec<BriefingSection>)
    ensures
        views(r@) == views(list@),
{
    let mut out: Vec<BriefingSection> = Vec::new();
    let mut i: usize = 0;
    while i < list.len()
        invariant
            i <= list@.len(),
            views(out@) == views(list@).take(i as int),
        decreases list.len() - i,
    {
        push_section(&mut out, list[i].clone());
        assert(views(list@).take(i + 1) =~= views(list@).take(i as int).push(list@[i as int]@));
        i = i + 1;
    }
    assert(views(list@).take(i as int) =~= views(list@));
    out
}

impl Clone for Briefing {
    fn clone(&self) -> (r: Self)
        ensures
            r@ == self@,
    {
        Briefing {
            date: self.date.clone(),
            tldr: clone_texts(&self.tldr),
            sections: clone_sections(&self.sections),
        }
    }
}

/// The items of all sections, in the order in which they are shown.
pub open spec fn shown_items(sections: Seq<SectionView>) -> Seq<ItemView>
    decreases sections.len(),
{
    if sections.len() == 0 {
        seq![]
    } else {
        shown_items(sections.drop_last()) + sections.last().items
    }
}

/// Lists the items of a briefing in the order in which they are shown.
pub fn list_items<'a>(b: &'a Briefing) -> (r: Vec<&'a ContentItem>)
    ensures
        views(r@) == shown_items(b@.sections),
{
    let mut out: Vec<&'a ContentItem> = Vec::new();
    let ghost all = b@.sections;
    let mut s: usize = 0;
    while s < b.sections.len()
        invariant
            s <= b.sections@.len(),
            all == views(b.sections@),
            views(out@) == shown_items(all.take(s as int)),
        decreases b.sections.len() - s,
    {
        let section: &'a BriefingSection = &b.sections[s];
        let ghost before = views(out@);
        let ghost items = views(section.items@);
        let mut i: usize = 0;
        assert(items.take(0) =~= Seq::<ItemView>::empty());
        assert(before =~= before + items.take(0));
        while i < section.items.len()
            invariant
                i <= section.items@.len(),
                items == views(section.items@),
                views(out@) == before + items.take(i as int),
            decreases section.items.len() - i,
        {
            let ghost prev = out@;
            out.push(&section.items[i]);
            assert(views(out@) =~= views(prev).push(items[i as int]));
            assert(items.take(i + 1) =~= items.take(i as int).push(items[i as int]));
            assert(views(out@) =~= before + items.take(i + 1));
            i = i + 1;
        }
        proof {
            assert(items.take(i as int) =~= items);
            assert(all.take(s + 1).drop_last() =~= all.take(s as int));
            assert(all.take(s + 1).last() == section@);
        }
        s = s + 1;
    }
    assert(all.take(s as int) =~= all);
    out
}

/// A briefing shows the items of all its sections, section by section: what two
/// lists of sections show is shown one after the other where they stand so, and
/// one section shows its items.
pub proof fn sections_show_their_items(a: Seq<SectionView>, b: Seq<SectionView>, s: SectionView)
    ensures
        shown_items(a + b) == shown_items(a) + shown_items(b),
        shown_items(seq![s]) == s.items,
        shown_items(a) == a.map_values(|s: SectionView| s.items).flatten(),
    decreases b.len(),
{
    assert(seq![s].drop_last() =~= Seq::<SectionView>::empty());
    assert(shown_items(seq![s].drop_last()) =~= Seq::<ItemView>::empty());
    assert(shown_items(seq![s]) =~= s.items);
    lemma_shown_flat(a);
    if b.len() == 0 {
        assert(a + b =~= a);
        assert(shown_items(a) + shown_items(b) =~= shown_items(a));
    } else {
        sections_show_their_items(a, b.drop_last(), s);
        assert((a + b).drop_last() =~= a + b.drop_last());
        assert((a + b).last() == b.last());
        assert(shown_items(a + b) =~= shown_items(a) + shown_items(b));
    }
}

proof fn lemma_shown_flat(a: Seq<SectionView>)
    ensures
        shown_items(a) == a.map_values(|s: SectionView| s.items).flatten(),
    decreases a.len(),
{
    let lists = a.map_values(|s: SectionView| s.items);
    lists.lemma_flatten_and_flatten_alt_are_equivalent();
    if a.len() > 0 {
        let before = a.drop_last();
        lemma_shown_flat(before);
        let old_lists = before.map_values(|s: SectionView| s.items);
        old_lists.lemma_flatten_and_flatten_alt_are_equivalent();
        assert(lists.drop_last() =~= old_lists);
        assert(lists.last() == a.last().items);
    }
}

} // verus!
