//! What is stored and how it is read back: the rows of the tables, and the
//! way from a briefing to rows and from rows to a briefing.

use crate::briefing::{
    list_items, push_item, push_section, sections_show_their_items, shown_items, Briefing, BriefingSection,
    BriefingView, ContentItem, ItemView, SectionView, Timestamp,
};
use crate::score::Score;
use crate::text::{clone_opt, distinct_texts, distinct_texts_are_those, opt_text, same, views};
use vstd::prelude::*;

verus! {

// ---------------------------------------------------------------------------
// Lists of texts and instants as text
// ---------------------------------------------------------------------------

/// The JSON that `serde_json::to_string` writes for a list of texts.
pub uninterp spec fn texts_json(list: Seq<Seq<char>>) -> Seq<char>;

/// The list of texts that `serde_json::from_str` reads from JSON, if it is one.
pub uninterp spec fn texts_in(json: Seq<char>) -> Option<Seq<Seq<char>>>;

/// `serde_json::to_string` on a list of texts: it does not fail, its result
/// depends on the texts alone, and reading it back gives the same texts.
#[verifier::external_body]
fn write_texts(list: &Vec<String>) -> (r: String)
    ensures
        r@ == texts_json(views(list@)),
        texts_in(r@) == Some(views(list@)),
{
    serde_json::to_string(list).expect("a list of texts is valid JSON")
}

/// The view of an optional list of texts.
pub open spec fn opt_texts(o: Option<Vec<String>>) -> Option<Seq<Seq<char>>> {
    match o {
        Some(v) => Some(views(v@)),
        None => None,
    }
}

/// `serde_json::from_str` into a list of texts: its result depends on the text alone.
#[verifier::external_body]
fn read_texts(json: &str) -> (r: Option<Vec<String>>)
    ensures
        opt_texts(r) == texts_in(json@),
{
    serde_json::from_str::<Vec<String>>(json).ok()
}

/// The text of an instant in the form of RFC 3339, as `chrono` writes it, if it
/// has such an instant.
pub uninterp spec fn instant_text(seconds: i64, nanos: u32) -> Option<Seq<char>>;

/// The instant in UTC that `chrono` reads from a text in the form of RFC 3339, if it is one.
pub uninterp spec fn instant_in(text: Seq<char>) -> Option<Timestamp>;

/// Whether an instant lies in the years 0 to 9999, and its nanoseconds within a
/// second, or within a leap second at the end of a minute.
pub open spec fn is_instant(t: Timestamp) -> bool {
    &&& -62_167_219_200 <= t.seconds < 253_402_300_800
    &&& t.nanos < 1_000_000_000 || (t.nanos < 2_000_000_000 && t.seconds % 60 == 59)
}

/// `chrono::DateTime::from_timestamp`, then `to_rfc3339`: the result depends on
/// the instant alone, and for an instant in the years 0 to 9999 there is a
/// text, from which the same instant is read back.
#[verifier::external_body]
fn print_instant(t: Timestamp) -> (r: Option<String>)
    ensures
        opt_text(r) == instant_text(t.seconds, t.nanos),
        is_instant(t) ==> r is Some && instant_in(r->0@) == Some(t),
{
    chrono::DateTime::from_timestamp(t.seconds, t.nanos).map(|d| d.to_rfc3339())
}

/// `chrono::DateTime::parse_from_rfc3339`, brought to UTC: the result depends on
/// the text alone.
#[verifier::external_body]
fn read_instant(text: &str) -> (r: Option<Timestamp>)
    ensures
        r == instant_in(text@),
{
    let parsed = chrono::DateTime::parse_from_rfc3339(text).ok()?;
    let utc = parsed.with_timezone(&chrono::Utc);
    Some(Timestamp { seconds: utc.timestamp(), nanos: utc.timestamp_subsec_nanos() })
}

/// The texts in a field of JSON; none where the field holds something else.
pub open spec fn texts_or_none(json: Seq<char>) -> Seq<Seq<char>> {
    match texts_in(json) {
        Some(list) => list,
        None => seq![],
    }
}

/// Writes a list of texts as a field of JSON.
pub fn texts_field(list: &Vec<String>) -> (r: String)
    ensures
        r@ == texts_json(views(list@)),
        texts_or_none(r@) == views(list@),
{
    write_texts(list)
}

/// A list of texts as it was read, or an empty one where it could not be.
pub fn texts_or_default(read: Option<Vec<String>>) -> (r: Vec<String>)
    ensures
        views(r@) == match opt_texts(read) {
            Some(list) => list,
            None => seq![],
        },
{
    match read {
        Some(list) => list,
        None => {
            let empty: Vec<String> = Vec::new();
            assert(views(empty@) =~= seq![]);
            empty
        },
    }
}

/// Reads a list of texts from a field of JSON.
pub fn texts_from_field(json: &str) -> (r: Vec<String>)
    ensures
        views(r@) == texts_or_none(json@),
{
    texts_or_default(read_texts(json))
}

// ---------------------------------------------------------------------------
// Rows
// ---------------------------------------------------------------------------

/// The assessment of a briefing under a configuration.
#[derive(Debug)]
pub struct EvalRow {
    pub date: String,
    pub config_version: String,
    pub rubric_version: String,
    pub behavior: Score,
    pub judge: Score,
    pub structure: Score,
    pub total: Score,
    pub notes: Vec<String>,
}

/// What is known of a configuration besides its weights.
#[derive(Debug)]
pub struct ConfigMeta {
    pub version: String,
    pub parent: Option<String>,
    pub reason: String,
    pub created_at: String,
}

/// A test of a variant against what was active.
#[derive(Debug)]
pub struct ExperimentRow {
    pub id: String,
    pub kind: String,
    pub slot: String,
    pub control: String,
    pub candidate: String,
    pub status: String,
    pub created_at: String,
}

/// A source in the registry.
#[derive(Debug)]
pub struct SourceRow {
    pub id: String,
    pub url: String,
    pub active: bool,
    pub quality: Score,
    pub reason: String,
}

/// A document of the local corpus.
#[derive(Debug)]
pub struct DocRow {
    pub url: String,
    pub text: String,
}

/// Reads the flag that says whether a source is active.
pub fn is_active(flag: i64) -> (r: bool)
    ensures
        r == (flag != 0),
{
    flag != 0
}

/// The pattern that finds what holds the query.
pub fn search_pattern(query: &str) -> (r: String)
    ensures
        r@ == "%"@ + query@ + "%"@,
{
    let mut out = String::new();
    out.append("%");
    out.append(query);
    out.append("%");
    assert(out@ =~= "%"@ + query@ + "%"@);
    out
}

/// An item as it is stored.
#[derive(Debug)]
pub struct ContentRow {
    pub id: String,
    pub source_id: String,
    pub title: String,
    pub url: String,
    pub published_at: Option<String>,
    pub raw_summary: Option<String>,
    pub summary: Option<String>,
    pub topics: String,
}

/// What a stored item is.
#[verifier::ext_equal]
pub struct RowView {
    pub id: Seq<char>,
    pub source_id: Seq<char>,
    pub title: Seq<char>,
    pub url: Seq<char>,
    pub published_at: Option<Seq<char>>,
    pub raw_summary: Option<Seq<char>>,
    pub summary: Option<Seq<char>>,
    pub topics: Seq<char>,
}

impl View for ContentRow {
    type V = RowView;

    open spec fn view(&self) -> RowView {
        RowView {
            id: self.id@,
            source_id: self.source_id@,
            title: self.title@,
            url: self.url@,
            published_at: opt_text(self.published_at),
            raw_summary: opt_text(self.raw_summary),
            summary: opt_text(self.summary),
            topics: self.topics@,
        }
    }
}

/// The row of an item.
pub open spec fn row_of(it: ItemView) -> RowView {
    RowView {
        id: it.id,
        source_id: it.source_id,
        title: it.title,
        url: it.url,
        published_at: match it.published_at {
            Some(t) => instant_text(t.seconds, t.nanos),
            None => None,
        },
        raw_summary: it.raw_summary,
        summary: it.summary,
        topics: texts_json(it.topics),
    }
}

/// The item of a row. Entities and embeddings are not stored.
pub open spec fn item_of(row: RowView) -> ItemView {
    ItemView {
        id: row.id,
        source_id: row.source_id,
        title: row.title,
        url: row.url,
        published_at: match row.published_at {
            Some(s) => instant_in(s),
            None => None,
        },
        raw_summary: row.raw_summary,
        summary: row.summary,
        topics: texts_or_none(row.topics),
        entities: seq![],
        embedding: None,
    }
}

/// What remains of an item that is stored and read back.
pub open spec fn stored(it: ItemView) -> ItemView {
    ItemView { entities: seq![], embedding: None, ..it }
}

/// Whether an item can be stored without loss: its instant is one that can be written.
pub open spec fn is_storable(it: ItemView) -> bool {
    it.published_at is Some ==> is_instant(it.published_at->0)
}

/// Makes the row of an item. Reading the row of a storable item gives the item back.
pub fn item_row(it: &ContentItem) -> (r: ContentRow)
    ensures
        r@ == row_of(it@),
        is_storable(it@) ==> item_of(r@) == stored(it@),
{
    let published_at: Option<String> = match it.published_at {
        Some(t) => print_instant(t),
        None => None,
    };
    let r = ContentRow {
        id: it.id.clone(),
        source_id: it.source_id.clone(),
        title: it.title.clone(),
        url: it.url.clone(),
        published_at,
        raw_summary: clone_opt(&it.raw_summary),
        summary: clone_opt(&it.summary),
        topics: texts_field(&it.topics),
    };
    assert(is_storable(it@) ==> item_of(r@) =~= stored(it@));
    r
}

/// The item of a row, with its instant and its topics as they were read.
pub fn item_from(row: &ContentRow, published_at: Option<Timestamp>, topics: Vec<String>) -> (r: ContentItem)
    ensures
        r@ == (ItemView { published_at, topics: views(topics@), ..item_of(row@) }),
{
    let entities: Vec<String> = Vec::new();
    assert(views(entities@) =~= seq![]);
    ContentItem {
        id: row.id.clone(),
        source_id: row.source_id.clone(),
        title: row.title.clone(),
        url: row.url.clone(),
        published_at,
        raw_summary: clone_opt(&row.raw_summary),
        summary: clone_opt(&row.summary),
        topics,
        entities,
        embedding: None,
    }
}

/// Reads the item of a row.
pub fn row_item(row: &ContentRow) -> (r: ContentItem)
    ensures
        r@ == item_of(row@),
{
    let published_at: Option<Timestamp> = match &row.published_at {
        Some(s) => read_instant(s),
        None => None,
    };
    item_from(row, published_at, texts_from_field(&row.topics))
}

// ---------------------------------------------------------------------------
// Items that were seen before
// ---------------------------------------------------------------------------

/// The items whose flag is not set.
pub open spec fn unseen(items: Seq<ItemView>, known: Seq<bool>) -> Seq<ItemView>
    decreases items.len(),
{
    if items.len() == 0 {
        seq![]
    } else {
        let before = unseen(items.drop_last(), known);
        if known[items.len() - 1] {
            before
        } else {
            before.push(items.last())
        }
    }
}

/// Keeps the items that were never seen; `known` says of each whether it was.
pub fn filter_unseen(items: Vec<ContentItem>, known: &Vec<bool>) -> (r: Vec<ContentItem>)
    requires
        known@.len() == items@.len(),
    ensures
        views(r@) == unseen(views(items@), known@),
{
    let ghost all = views(items@);
    let mut out: Vec<ContentItem> = Vec::new();
    let mut i: usize = 0;
    assert(views(out@) =~= seq![]);
    while i < items.len()
        invariant
            i <= items@.len(),
            known@.len() == items@.len(),
            all == views(items@),
            views(out@) == unseen(all.take(i as int), known@),
        decreases items.len() - i,
    {
        proof {
            assert(all.take(i + 1).drop_last() =~= all.take(i as int));
            assert(all.take(i + 1).last() == items@[i as int]@);
        }
        if !known[i] {
            push_item(&mut out, items[i].clone());
        }
        i = i + 1;
    }
    assert(all.take(i as int) =~= all);
    out
}

// ---------------------------------------------------------------------------
// Saving a briefing
// ---------------------------------------------------------------------------

/// An item of a briefing: in which section it stands, and where.
#[derive(Debug)]
pub struct BriefingItemRow {
    pub item_id: String,
    pub section_id: String,
    pub position: i64,
}

/// What such a row is.
#[verifier::ext_equal]
pub struct PlaceView {
    pub item_id: Seq<char>,
    pub section_id: Seq<char>,
    pub position: int,
}

impl View for BriefingItemRow {
    type V = PlaceView;

    open spec fn view(&self) -> PlaceView {
        PlaceView { item_id: self.item_id@, section_id: self.section_id@, position: self.position as int }
    }
}

/// The section of each item, in the order in which they are shown.
pub open spec fn section_ids(sections: Seq<SectionView>) -> Seq<Seq<char>>
    decreases sections.len(),
{
    if sections.len() == 0 {
        seq![]
    } else {
        section_ids(sections.drop_last()) + Seq::new(sections.last().items.len(), |i: int| sections.last().id)
    }
}

/// The rows of the items, counted through all sections.
pub open spec fn places(sections: Seq<SectionView>) -> Seq<PlaceView> {
    Seq::new(
        shown_items(sections).len(),
        |i: int| PlaceView { item_id: shown_items(sections)[i].id, section_id: section_ids(sections)[i], position: i },
    )
}

/// What is written for a briefing.
#[derive(Debug)]
pub struct BriefingRows {
    pub date: String,
    pub config_version: String,
    pub tldr: String,
    /// The items, in the order in which they are shown.
    pub items: Vec<ContentRow>,
    /// Where each of them stands.
    pub places: Vec<BriefingItemRow>,
}

/// There are as many sections of items as items.
proof fn lemma_section_ids(sections: Seq<SectionView>)
    ensures
        section_ids(sections).len() == shown_items(sections).len(),
    decreases sections.len(),
{
    if sections.len() > 0 {
        lemma_section_ids(sections.drop_last());
    }
}

/// Lists the section of each item.
fn list_section_ids(b: &Briefing) -> (r: Vec<String>)
    ensures
        views(r@) == section_ids(b@.sections),
{
    let ghost all = b@.sections;
    let mut out: Vec<String> = Vec::new();
    let mut s: usize = 0;
    assert(views(out@) =~= seq![]);
    while s < b.sections.len()
        invariant
            s <= b.sections@.len(),
            all == views(b.sections@),
            views(out@) == section_ids(all.take(s as int)),
        decreases b.sections.len() - s,
    {
        let ghost before = views(out@);
        let ghost row = Seq::new(all[s as int].items.len(), |i: int| all[s as int].id);
        let mut i: usize = 0;
        assert(before + row.take(0) =~= before);
        while i < b.sections[s].items.len()
            invariant
                s < b.sections@.len(),
                all == views(b.sections@),
                row == Seq::new(all[s as int].items.len(), |i: int| all[s as int].id),
                i <= b.sections@[s as int].items@.len(),
                views(out@) == before + row.take(i as int),
            decreases b.sections@[s as int].items@.len() - i,
        {
            let ghost prev = out@;
            out.push(b.sections[s].id.clone());
            assert(views(out@) =~= views(prev).push(row[i as int]));
            assert(before + row.take(i + 1) =~= (before + row.take(i as int)).push(row[i as int]));
            i = i + 1;
        }
        proof {
            assert(row.take(i as int) =~= row);
            assert(all.take(s + 1).drop_last() =~= all.take(s as int));
            assert(all.take(s + 1).last() == all[s as int]);
        }
        s = s + 1;
    }
    assert(all.take(s as int) =~= all);
    out
}

/// What is written for a briefing: its head, the items that it shows, and where
/// each stands, counted through all sections. What is read back is the briefing
/// as it is kept, where its sections have different identifiers, none of them is
/// empty, and its items can be stored.
pub fn save_briefing(b: &Briefing, config_version: &str) -> (r: BriefingRows)
    requires
        shown_items(b@.sections).len() <= i64::MAX,
    ensures
        r.date@ == b@.date,
        r.config_version@ == config_version@,
        r.tldr@ == texts_json(b@.tldr),
        texts_or_none(r.tldr@) == b@.tldr,
        views(r.items@) == Seq::new(shown_items(b@.sections).len(), |i: int| row_of(shown_items(b@.sections)[i])),
        views(r.places@) == places(b@.sections),
        forall|i: int|
            0 <= i < r.items@.len() && is_storable(shown_items(b@.sections)[i]) ==> item_of((#[trigger] r.items@[i])@)
                == stored(shown_items(b@.sections)[i]),
        are_sections(b@.sections) && (forall|i: int|
            0 <= i < shown_items(b@.sections).len() ==> is_storable(#[trigger] shown_items(b@.sections)[i])) ==> read_back(r)
            == kept(b@),
{
    let shown = list_items(b);
    let ids = list_section_ids(b);
    let ghost all = views(shown@);
    proof {
        lemma_section_ids(b@.sections);
    }
    let mut items: Vec<ContentRow> = Vec::new();
    let mut rows: Vec<BriefingItemRow> = Vec::new();
    let mut i: usize = 0;
    while i < shown.len()
        invariant
            i <= shown@.len(),
            all == views(shown@),
            all == shown_items(b@.sections),
            all.len() <= i64::MAX,
            views(ids@) == section_ids(b@.sections),
            ids@.len() == shown@.len(),
            items@.len() == i,
            rows@.len() == i,
            forall|k: int| 0 <= k < i ==> (#[trigger] items@[k])@ == row_of(all[k]),
            forall|k: int|
                0 <= k < i && is_storable(all[k]) ==> item_of((#[trigger] items@[k])@) == stored(all[k]),
            forall|k: int| 0 <= k < i ==> (#[trigger] rows@[k])@ == places(b@.sections)[k],
        decreases shown.len() - i,
    {
        items.push(item_row(shown[i]));
        assert(views(ids@)[i as int] == ids@[i as int]@);
        rows.push(
            BriefingItemRow {
                item_id: shown[i].id.clone(),
                section_id: ids[i].clone(),
                position: i as i64,
            },
        );
        i = i + 1;
    }
    assert(views(items@) =~= Seq::new(all.len(), |k: int| row_of(all[k])));
    assert(views(rows@) =~= places(b@.sections));
    let r = BriefingRows {
        date: b.date.clone(),
        config_version: config_version.to_string(),
        tldr: texts_field(&b.tldr),
        items,
        places: rows,
    };
    proof {
        assert(rejoined(r) =~= loaded(b@.sections));
        if are_sections(b@.sections) && (forall|i: int| 0 <= i < all.len() ==> is_storable(#[trigger] all[i])) {
            assert forall|i: int| 0 <= i < all.len() implies item_of(row_of(#[trigger] all[i])) == stored(all[i]) by {
                assert(r.items@[i]@ == row_of(all[i]));
            }
            lemma_survives(b@, rejoined(r));
            assert(read_back(r) =~= kept(b@));
        }
    }
    r
}

/// The row at position `p` is that of the item shown at `p`: what a reader
/// answers to the item at a position is answered to that item.
pub proof fn positions_name_shown_items(sections: Seq<SectionView>, p: int)
    requires
        0 <= p < shown_items(sections).len(),
    ensures
        places(sections)[p].position == p,
        places(sections)[p].item_id == shown_items(sections)[p].id,
        forall|q: int| 0 <= q < places(sections).len() && (#[trigger] places(sections)[q]).position == p ==> q == p,
{
}

// ---------------------------------------------------------------------------
// Reading a briefing back
// ---------------------------------------------------------------------------

/// An item as it is read back, with the section in which it stood.
#[derive(Debug)]
pub struct LoadedRow {
    pub section_id: String,
    pub item: ContentRow,
}

/// What such a row is.
#[verifier::ext_equal]
pub struct LoadedView {
    pub section_id: Seq<char>,
    pub item: RowView,
}

impl View for LoadedRow {
    type V = LoadedView;

    open spec fn view(&self) -> LoadedView {
        LoadedView { section_id: self.section_id@, item: self.item@ }
    }
}

/// The place of the first section with the given identifier; the number of
/// sections where there is none.
pub open spec fn section_at(sections: Seq<SectionView>, id: Seq<char>) -> int
    decreases sections.len(),
{
    if sections.len() == 0 {
        0
    } else if sections[0].id == id {
        0
    } else {
        1 + section_at(sections.drop_first(), id)
    }
}

/// The sections with an item put into the section of that identifier, which is
/// opened at the end where there is none. Titles are not stored: the
/// identifier stands in for them.
pub open spec fn with_item(sections: Seq<SectionView>, id: Seq<char>, item: ItemView) -> Seq<SectionView> {
    let at = section_at(sections, id);
    if at < sections.len() {
        sections.update(at, SectionView { items: sections[at].items.push(item), ..sections[at] })
    } else {
        sections.push(SectionView { id, title: id, items: seq![item] })
    }
}

/// The sections of some rows.
pub open spec fn grouped(rows: Seq<LoadedView>) -> Seq<SectionView>
    decreases rows.len(),
{
    if rows.len() == 0 {
        seq![]
    } else {
        with_item(grouped(rows.drop_last()), rows.last().section_id, item_of(rows.last().item))
    }
}

/// Finds the first section with the given identifier.
fn find_section(sections: &Vec<BriefingSection>, id: &str) -> (r: usize)
    ensures
        r == section_at(views(sections@), id@),
        r <= sections@.len(),
{
    let ghost all = views(sections@);
    let mut i: usize = 0;
    assert(all.skip(0) =~= all);
    while i < sections.len() && !same(&sections[i].id, id)
        invariant
            i <= sections@.len(),
            all == views(sections@),
            section_at(all, id@) == i + section_at(all.skip(i as int), id@),
        decreases sections.len() - i,
    {
        assert(all.skip(i as int).drop_first() =~= all.skip(i + 1));
        assert(all.skip(i as int)[0] == all[i as int]);
        i = i + 1;
    }
    if i < sections.len() {
        assert(all.skip(i as int)[0] == all[i as int]);
    }
    i
}

/// Puts an item into its section.
fn place_item(sections: &mut Vec<BriefingSection>, id: &str, item: ContentItem)
    ensures
        views(final(sections)@) == with_item(views(old(sections)@), id@, item@),
{
    let ghost before = views(sections@);
    let ghost put = item@;
    let at: usize = find_section(sections, id);
    if at < sections.len() {
        let mut section = sections[at].clone();
        push_item(&mut section.items, item);
        let ghost grown = section@;
        sections.set(at, section);
        assert(views(sections@) =~= before.update(at as int, grown));
        assert(grown =~= (SectionView { items: before[at as int].items.push(put), ..before[at as int] }));
    } else {
        let mut items: Vec<ContentItem> = Vec::new();
        push_item(&mut items, item);
        assert(views(items@) =~= seq![put]);
        push_section(sections, BriefingSection { id: id.to_string(), title: id.to_string(), items });
    }
}

/// Rebuilds a briefing from its head and its rows, in the order of their positions.
pub fn load_briefing(date: &str, tldr: &str, rows: &Vec<LoadedRow>) -> (r: Briefing)
    ensures
        r@ == (BriefingView { date: date@, tldr: texts_or_none(tldr@), sections: grouped(views(rows@)) }),
{
    let ghost all = views(rows@);
    let mut sections: Vec<BriefingSection> = Vec::new();
    let mut i: usize = 0;
    assert(views(sections@) =~= seq![]);
    while i < rows.len()
        invariant
            i <= rows@.len(),
            all == views(rows@),
            views(sections@) == grouped(all.take(i as int)),
        decreases rows.len() - i,
    {
        proof {
            assert(all.take(i + 1).drop_last() =~= all.take(i as int));
            assert(all.take(i + 1).last() == rows@[i as int]@);
        }
        place_item(&mut sections, &rows[i].section_id, row_item(&rows[i].item));
        i = i + 1;
    }
    assert(all.take(i as int) =~= all);
    Briefing { date: date.to_string(), tldr: texts_from_field(tldr), sections }
}

/// The rows that come back for a briefing: each item with its section, in order.
pub open spec fn loaded(sections: Seq<SectionView>) -> Seq<LoadedView> {
    Seq::new(
        shown_items(sections).len(),
        |i: int| LoadedView { section_id: section_ids(sections)[i], item: row_of(shown_items(sections)[i]) },
    )
}

/// A section as it comes back: its identifier as its title, its items as they are stored.
pub open spec fn stored_section(s: SectionView) -> SectionView {
    SectionView { id: s.id, title: s.id, items: Seq::new(s.items.len(), |i: int| item_of(row_of(s.items[i]))) }
}

/// Sections as they come back.
pub open spec fn stored_sections(s: Seq<SectionView>) -> Seq<SectionView> {
    Seq::new(s.len(), |i: int| stored_section(s[i]))
}

/// Whether the sections have different identifiers and none is empty.
pub open spec fn are_sections(s: Seq<SectionView>) -> bool {
    &&& forall|i: int, j: int| 0 <= i < j < s.len() ==> (#[trigger] s[i]).id != (#[trigger] s[j]).id
    &&& forall|i: int| 0 <= i < s.len() ==> (#[trigger] s[i]).items.len() > 0
}

/// The place of a section whose identifier no earlier section has.
proof fn lemma_section_at(sections: Seq<SectionView>, id: Seq<char>, at: int)
    requires
        0 <= at <= sections.len(),
        forall|i: int| 0 <= i < at ==> (#[trigger] sections[i]).id != id,
        at < sections.len() ==> sections[at].id == id,
    ensures
        section_at(sections, id) == at,
    decreases sections.len(),
{
    if sections.len() > 0 && at > 0 {
        let rest = sections.drop_first();
        assert(sections[0].id != id);
        assert forall|i: int| 0 <= i < at - 1 implies (#[trigger] rest[i]).id != id by {
            assert(rest[i] == sections[i + 1]);
        }
        if at < sections.len() {
            assert(rest[at - 1] == sections[at]);
        }
        lemma_section_at(rest, id, at - 1);
    }
}

/// Rows of one section behind the rows of others: they fill one new section.
proof fn lemma_grouped_section(before: Seq<LoadedView>, section: SectionView, n: int)
    requires
        0 < n <= section.items.len(),
        forall|i: int| 0 <= i < grouped(before).len() ==> (#[trigger] grouped(before)[i]).id != section.id,
    ensures
        grouped(before + section_rows(section).take(n)) == grouped(before).push(
            SectionView {
                id: section.id,
                title: section.id,
                items: Seq::new(n as nat, |i: int| item_of(row_of(section.items[i]))),
            },
        ),
    decreases n,
{
    let rows = section_rows(section);
    let all = before + rows.take(n);
    let base = grouped(before);
    assert(all.drop_last() =~= before + rows.take(n - 1));
    assert(all.last() == rows[n - 1]);
    let item = item_of(row_of(section.items[n - 1]));
    if n == 1 {
        assert(before + rows.take(0) =~= before);
        lemma_section_at(base, section.id, base.len() as int);
        assert(seq![item] =~= Seq::new(1, |i: int| item_of(row_of(section.items[i]))));
    } else {
        lemma_grouped_section(before, section, n - 1);
        let prev = grouped(before + rows.take(n - 1));
        let opened = SectionView {
            id: section.id,
            title: section.id,
            items: Seq::new((n - 1) as nat, |i: int| item_of(row_of(section.items[i]))),
        };
        assert(prev == base.push(opened));
        assert forall|i: int| 0 <= i < base.len() implies (#[trigger] prev[i]).id != section.id by {
            assert(prev[i] == base[i]);
        }
        lemma_section_at(prev, section.id, base.len() as int);
        assert(opened.items.push(item) =~= Seq::new(n as nat, |i: int| item_of(row_of(section.items[i]))));
        assert(grouped(all) =~= base.push(
            SectionView {
                id: section.id,
                title: section.id,
                items: Seq::new(n as nat, |i: int| item_of(row_of(section.items[i]))),
            },
        ));
    }
}

/// The rows of one section.
pub open spec fn section_rows(section: SectionView) -> Seq<LoadedView> {
    Seq::new(section.items.len(), |i: int| LoadedView { section_id: section.id, item: row_of(section.items[i]) })
}

/// The rows of a briefing come back in its sections.
proof fn lemma_grouped(sections: Seq<SectionView>)
    requires
        are_sections(sections),
    ensures
        grouped(loaded(sections)) == stored_sections(sections),
    decreases sections.len(),
{
    if sections.len() == 0 {
        assert(loaded(sections) =~= seq![]);
        assert(stored_sections(sections) =~= seq![]);
    } else {
        let before = sections.drop_last();
        let last = sections.last();
        assert(are_sections(before)) by {
            assert forall|i: int, j: int| 0 <= i < j < before.len() implies (#[trigger] before[i]).id != (
            #[trigger] before[j]).id by {
                assert(sections[i].id != sections[j].id);
            }
            assert forall|i: int| 0 <= i < before.len() implies (#[trigger] before[i]).items.len() > 0 by {
                assert(sections[i].items.len() > 0);
            }
        }
        lemma_grouped(before);
        lemma_section_ids(before);
        lemma_section_ids(sections);
        assert(loaded(sections) =~= loaded(before) + section_rows(last));
        assert(sections[sections.len() - 1].items.len() > 0);
        assert forall|i: int| 0 <= i < grouped(loaded(before)).len() implies (#[trigger] grouped(loaded(before))[i]).id
            != last.id by {
            assert(stored_sections(before)[i].id == before[i].id);
            assert(sections[i].id != sections[sections.len() - 1].id);
        }
        assert(section_rows(last).take(last.items.len() as int) =~= section_rows(last));
        lemma_grouped_section(loaded(before), last, last.items.len() as int);
        assert(stored_sections(sections) =~= stored_sections(before).push(stored_section(last)));
    }
}

/// A briefing as it is kept: without the titles of its sections, and without the
/// entities and embeddings of its items.
pub open spec fn kept(b: BriefingView) -> BriefingView {
    BriefingView {
        sections: Seq::new(
            b.sections.len(),
            |i: int|
                SectionView {
                    id: b.sections[i].id,
                    title: b.sections[i].id,
                    items: Seq::new(b.sections[i].items.len(), |k: int| stored(b.sections[i].items[k])),
                },
        ),
        ..b
    }
}

/// The rows of items joined with their places.
pub open spec fn rejoined(r: BriefingRows) -> Seq<LoadedView> {
    Seq::new(
        r.items@.len(),
        |i: int| LoadedView { section_id: r.places@[i]@.section_id, item: r.items@[i]@ },
    )
}

/// What `load_briefing` makes of the rows that were written.
pub open spec fn read_back(r: BriefingRows) -> BriefingView {
    BriefingView { date: r.date@, tldr: texts_or_none(r.tldr@), sections: grouped(rejoined(r)) }
}

/// The place of an item of a section among all items.
proof fn lemma_item_shown(sections: Seq<SectionView>, s: int, k: int)
    requires
        0 <= s < sections.len(),
        0 <= k < sections[s].items.len(),
    ensures
        exists|i: int| 0 <= i < shown_items(sections).len() && #[trigger] shown_items(sections)[i] == sections[s].items[k],
    decreases sections.len(),
{
    let before = sections.drop_last();
    if s < before.len() {
        lemma_item_shown(before, s, k);
        let i = choose|i: int|
            0 <= i < shown_items(before).len() && #[trigger] shown_items(before)[i] == before[s].items[k];
        assert(shown_items(sections)[i] == shown_items(before)[i]);
    } else {
        let i = shown_items(before).len() + k;
        assert(shown_items(sections)[i] == sections[s].items[k]);
    }
}

/// Rows written for a briefing bring back what is kept of it.
proof fn lemma_survives(b: BriefingView, rows: Seq<LoadedView>)
    requires
        are_sections(b.sections),
        rows == loaded(b.sections),
        forall|i: int|
            0 <= i < shown_items(b.sections).len() ==> item_of(row_of(#[trigger] shown_items(b.sections)[i])) == stored(
                shown_items(b.sections)[i],
            ),
    ensures
        grouped(rows) == kept(b).sections,
{
    lemma_grouped(b.sections);
    assert forall|s: int| 0 <= s < b.sections.len() implies stored_sections(b.sections)[s] == #[trigger] kept(
        b,
    ).sections[s] by {
        let section = b.sections[s];
        assert forall|k: int| 0 <= k < section.items.len() implies item_of(row_of(#[trigger] section.items[k]))
            == stored(section.items[k]) by {
            lemma_item_shown(b.sections, s, k);
        }
        assert(stored_section(section).items =~= kept(b).sections[s].items);
    }
    assert(stored_sections(b.sections) =~= kept(b).sections);
}

// ---------------------------------------------------------------------------
// What the store keeps
// ---------------------------------------------------------------------------

/// The items that are not known stay, in order, and no others do.
pub proof fn unknown_items_stay(items: Seq<ItemView>, known: Seq<bool>) -> (places: Seq<int>)
    requires
        known.len() == items.len(),
    ensures
        unseen(items, known) == Seq::new(places.len(), |i: int| items[places[i]]),
        forall|i: int, j: int| 0 <= i < j < places.len() ==> (#[trigger] places[i]) < (#[trigger] places[j]),
        forall|i: int| 0 <= i < places.len() ==> 0 <= (#[trigger] places[i]) < items.len(),
        forall|k: int| 0 <= k < items.len() ==> (#[trigger] places.contains(k) <==> !known[k]),
{
    lemma_unknown(items, known, items.len() as int)
}

proof fn lemma_unknown(items: Seq<ItemView>, known: Seq<bool>, n: int) -> (places: Seq<int>)
    requires
        0 <= n <= items.len(),
        known.len() == items.len(),
    ensures
        unseen(items.take(n), known) == Seq::new(places.len(), |i: int| items[places[i]]),
        forall|i: int, j: int| 0 <= i < j < places.len() ==> (#[trigger] places[i]) < (#[trigger] places[j]),
        forall|i: int| 0 <= i < places.len() ==> 0 <= (#[trigger] places[i]) < n,
        forall|k: int| 0 <= k < n ==> (#[trigger] places.contains(k) <==> !known[k]),
        n == items.len() ==> items.take(n) == items,
    decreases n,
{
    if n == 0 {
        assert(items.take(0).len() == 0);
        let places = Seq::<int>::empty();
        assert(unseen(items.take(n), known) =~= Seq::new(places.len(), |i: int| items[places[i]]));
        assert(n == items.len() ==> items.take(n) =~= items);
        places
    } else {
        let f = lemma_unknown(items, known, n - 1);
        assert(items.take(n).drop_last() =~= items.take(n - 1));
        assert(n == items.len() ==> items.take(n) =~= items);
        let places = if known[n - 1] {
            f
        } else {
            f.push(n - 1)
        };
        assert(unseen(items.take(n), known) =~= Seq::new(places.len(), |i: int| items[places[i]]));
        assert forall|k: int| 0 <= k < n implies (#[trigger] places.contains(k) <==> !known[k]) by {
            if k < n - 1 {
                assert(f.contains(k) <==> !known[k]);
                if f.contains(k) {
                    let i = choose|i: int| 0 <= i < f.len() && f[i] == k;
                    assert(places[i] == k);
                }
                if places.contains(k) {
                    let i = choose|i: int| 0 <= i < places.len() && places[i] == k;
                    assert(i < f.len());
                    assert(f[i] == k);
                }
            } else {
                if !known[k] {
                    assert(places[places.len() - 1] == k);
                } else if places.contains(k) {
                    let i = choose|i: int| 0 <= i < places.len() && places[i] == k;
                    assert(f[i] == k);
                }
            }
        }
        places
    }
}

/// A row has what its item has, each in its own field.
pub proof fn row_has_what_its_item_has(it: ItemView, row: RowView)
    ensures
        row_of(it).id == it.id && item_of(row).id == row.id,
        row_of(it).source_id == it.source_id && item_of(row).source_id == row.source_id,
        row_of(it).title == it.title && item_of(row).title == row.title,
        row_of(it).url == it.url && item_of(row).url == row.url,
        row_of(it).raw_summary == it.raw_summary && item_of(row).raw_summary == row.raw_summary,
        row_of(it).summary == it.summary && item_of(row).summary == row.summary,
        row_of(it).published_at is Some ==> it.published_at is Some,
        item_of(row).published_at is Some ==> row.published_at is Some && instant_in(row.published_at->0)
            == item_of(row).published_at,
{
}

/// Every item of a section is listed with that section, at the place at which it is
/// shown.
pub proof fn items_are_listed_in_their_section(a: Seq<SectionView>, s: SectionView, b: Seq<SectionView>, k: int)
    requires
        0 <= k < s.items.len(),
    ensures
        places(a + seq![s] + b).len() == shown_items(a).len() + s.items.len() + shown_items(b).len(),
        places(a + seq![s] + b)[shown_items(a).len() + k] == (PlaceView {
            item_id: s.items[k].id,
            section_id: s.id,
            position: shown_items(a).len() + k,
        }),
{
    sections_show_their_items(a + seq![s], b, s);
    sections_show_their_items(a, seq![s], s);
    lemma_ids_follow(a + seq![s], b);
    lemma_ids_follow(a, seq![s]);
    lemma_section_ids(a);
    lemma_section_ids(a + seq![s] + b);
    assert(seq![s].drop_last() =~= Seq::<SectionView>::empty());
    assert(section_ids(seq![s].drop_last()) =~= Seq::<Seq<char>>::empty());
    assert(section_ids(seq![s])[k] == s.id);
}

proof fn lemma_ids_follow(a: Seq<SectionView>, b: Seq<SectionView>)
    ensures
        section_ids(a + b) == section_ids(a) + section_ids(b),
    decreases b.len(),
{
    if b.len() == 0 {
        assert(a + b =~= a);
        assert(section_ids(a) + section_ids(b) =~= section_ids(a));
    } else {
        lemma_ids_follow(a, b.drop_last());
        assert((a + b).drop_last() =~= a + b.drop_last());
        assert(section_ids(a + b) =~= section_ids(a) + section_ids(b));
    }
}

/// Rows are grouped by their sections: each section that a row names is there once, in
/// the order in which the rows name them first, and has the items of its rows, in
/// order.
pub proof fn rows_are_grouped_by_section(rows: Seq<LoadedView>)
    ensures
        Seq::new(grouped(rows).len(), |i: int| grouped(rows)[i].id) == distinct_texts(
            Seq::new(rows.len(), |i: int| rows[i].section_id),
        ),
        forall|i: int|
            0 <= i < grouped(rows).len() ==> (#[trigger] grouped(rows)[i]).items == items_in(rows, grouped(rows)[i].id),
    decreases rows.len(),
{
    let all = grouped(rows);
    let ids = Seq::new(rows.len(), |i: int| rows[i].section_id);
    let names = Seq::new(all.len(), |i: int| all[i].id);
    if rows.len() == 0 {
        assert(names =~= distinct_texts(ids));
    } else {
        let before = rows.drop_last();
        let old_all = grouped(before);
        let old_ids = Seq::new(before.len(), |i: int| before[i].section_id);
        let old_names = Seq::new(old_all.len(), |i: int| old_all[i].id);
        rows_are_grouped_by_section(before);
        let id = rows.last().section_id;
        let item = item_of(rows.last().item);
        assert(ids.drop_last() =~= old_ids);
        distinct_texts_are_those(old_ids);
        lemma_at_first(old_all, id);
        let at = section_at(old_all, id);
        assert(at < old_all.len() <==> old_names.contains(id)) by {
            if at < old_all.len() {
                assert(old_names[at] == id);
            }
            if old_names.contains(id) {
                let k = choose|k: int| 0 <= k < old_names.len() && old_names[k] == id;
                assert(old_all[k].id == id);
            }
        }
        if at < old_all.len() {
            assert(names =~= old_names);
        } else {
            assert(names =~= old_names.push(id));
        }
        assert(distinct_texts(ids) == names);
        assert forall|i: int| 0 <= i < all.len() implies (#[trigger] all[i]).items == items_in(rows, all[i].id) by {
            lemma_items_in(rows, all[i].id);
            if i < old_all.len() {
                assert(old_all[i].items == items_in(before, old_all[i].id));
                assert(all[i].id == old_all[i].id);
                if i != at && at < old_all.len() {
                    assert(old_names[i] != old_names[at]);
                }
            } else {
                lemma_none_in(before, id);
                assert(all[i].items =~= items_in(rows, id));
            }
        }
    }
}

/// The items of the rows of a section.
pub open spec fn items_in(rows: Seq<LoadedView>, id: Seq<char>) -> Seq<ItemView> {
    rows.filter(|r: LoadedView| r.section_id == id).map_values(|r: LoadedView| item_of(r.item))
}

proof fn lemma_items_in(rows: Seq<LoadedView>, id: Seq<char>)
    requires
        rows.len() > 0,
    ensures
        items_in(rows, id) == if rows.last().section_id == id {
            items_in(rows.drop_last(), id).push(item_of(rows.last().item))
        } else {
            items_in(rows.drop_last(), id)
        },
{
    reveal(Seq::filter);
    let kept = rows.drop_last().filter(|r: LoadedView| r.section_id == id);
    let f = |r: LoadedView| item_of(r.item);
    assert(kept.push(rows.last()).map_values(f) =~= kept.map_values(f).push(f(rows.last())));
}

proof fn lemma_none_in(rows: Seq<LoadedView>, id: Seq<char>)
    requires
        !Seq::new(rows.len(), |i: int| rows[i].section_id).contains(id),
    ensures
        items_in(rows, id).len() == 0,
    decreases rows.len(),
{
    reveal(Seq::filter);
    if rows.len() > 0 {
        let ids = Seq::new(rows.len(), |i: int| rows[i].section_id);
        let before = rows.drop_last();
        let old_ids = Seq::new(before.len(), |i: int| before[i].section_id);
        assert(ids[rows.len() - 1] != id);
        if old_ids.contains(id) {
            let k = choose|k: int| 0 <= k < old_ids.len() && old_ids[k] == id;
            assert(ids[k] == id);
        }
        lemma_none_in(before, id);
        lemma_items_in(rows, id);
    }
}

proof fn lemma_at_first(sections: Seq<SectionView>, id: Seq<char>)
    ensures
        0 <= section_at(sections, id) <= sections.len(),
        section_at(sections, id) < sections.len() ==> sections[section_at(sections, id)].id == id,
        forall|k: int| 0 <= k < section_at(sections, id) ==> (#[trigger] sections[k]).id != id,
    decreases sections.len(),
{
    if sections.len() > 0 && sections[0].id != id {
        let rest = sections.drop_first();
        lemma_at_first(rest, id);
        assert forall|k: int| 0 <= k < section_at(sections, id) implies (#[trigger] sections[k]).id != id by {
            if k > 0 {
                assert(rest[k - 1].id != id);
            }
        }
    }
}

} // verus!
