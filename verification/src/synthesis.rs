//! What the models write: the enrichment of the items, the three things of the
//! day and the counterpoint. Each is a request to a model and a function of the
//! model's reply.

use crate::briefing::{list_items, push_item, shown_items, Briefing, BriefingView, ContentItem, ItemView};
use crate::llm::{
    plain_request, Completion, CompletionView, TEMPERATURE_3, TEMPERATURE_4, TEMPERATURE_6,
};
use crate::pipeline::first_of;
use crate::scan::{
    contains_part, every_occurrence_is_replaced, has_part, left_trimmed, left_trimming_takes_the_start, lines,
    part_stands_between, replace, replaced, split_lines, stands_at, trim, trim_start, trimmed,
    trimming_takes_the_ends, CharClass,
};
use crate::text::{joined, views, white_space};
use crate::topics::{vocabulary, vocabulary_list};
use vstd::prelude::*;

verus! {

/// How many tokens the enrichment of an item may take.
pub const ENRICH_MAX_TOKENS: u32 = 200;

/// How many tokens the synthesis may take.
pub const SYNTH_MAX_TOKENS: u32 = 400;

/// How many items are enriched at the same time.
pub const CONCURRENCY: usize = 4;

pub const ENRICH_SYSTEM: &'static str =
    "Du bist ein präziser Redaktions-Assistent. Antworte ausschließlich mit JSON.";

pub const COUNTERPOINT_SYSTEM: &'static str =
    "Du bist ein fairer, intellektuell ehrlicher Sparringspartner — kein Provokateur.";

pub const COUNTERPOINT_PROMPT: &'static str = "Hier sind die heutigen Meldungen:\n{items}\n\nFormuliere EINE ernsthafte, fair dargestellte Gegenperspektive zu einer eher links-liberalen Sicht auf eines dieser Themen — das stärkste Gegenargument (Steelman), keine Karikatur. 2–3 Sätze auf Deutsch.";

/// The place in a template where the items go.
pub const ITEMS_SLOT: &'static str = "{items}";

/// The identifier of the section with the counterpoint.
pub const COUNTERPOINT_ID: &'static str = "counterpoint";

/// The title of the section with the counterpoint, and of its item.
pub const COUNTERPOINT_TITLE: &'static str = "Gegenperspektive";

// ---------------------------------------------------------------------------
// The items as text
// ---------------------------------------------------------------------------

/// What stands for an item in a list: its summary, or its title where it has none.
pub open spec fn headline(item: ItemView) -> Seq<char> {
    match item.summary {
        Some(s) => s,
        None => item.title,
    }
}

/// The items as a list, one line each.
pub open spec fn item_lines(items: Seq<ItemView>) -> Seq<char>
    decreases items.len(),
{
    if items.len() == 0 {
        seq![]
    } else {
        item_lines(items.drop_last()) + "- "@ + headline(items.last()) + "\n"@
    }
}

/// The items of all sections as a list, one line each.
pub fn section_items_text(b: &Briefing) -> (r: String)
    ensures
        r@ == item_lines(shown_items(b@.sections)),
{
    let items = list_items(b);
    let ghost all = views(items@);
    let mut out = String::new();
    let mut i: usize = 0;
    while i < items.len()
        invariant
            i <= items@.len(),
            all == views(items@),
            out@ == item_lines(all.take(i as int)),
        decreases items.len() - i,
    {
        out.append("- ");
        match &items[i].summary {
            Some(s) => {
                out.append(s);
            },
            None => {
                out.append(&items[i].title);
            },
        }
        out.append("\n");
        proof {
            assert(all.take(i + 1).drop_last() =~= all.take(i as int));
            assert(all.take(i + 1).last() == items@[i as int]@);
        }
        i = i + 1;
    }
    assert(all.take(i as int) =~= all);
    out
}

/// A template with the items in their place; behind it where it has none.
pub open spec fn filled(template: Seq<char>, items: Seq<char>) -> Seq<char> {
    if has_part(template, ITEMS_SLOT@) {
        replaced(template, ITEMS_SLOT@, items)
    } else {
        template + "\n\n"@ + items
    }
}

/// Puts the items into a template.
pub fn fill(template: &str, items_text: &str) -> (r: String)
    ensures
        r@ == filled(template@, items_text@),
{
    proof {
        reveal_strlit("{items}");
    }
    if contains_part(template, ITEMS_SLOT) {
        replace(template, ITEMS_SLOT, items_text)
    } else {
        let mut out = template.to_string();
        out.append("\n\n");
        out.append(items_text);
        out
    }
}

// ---------------------------------------------------------------------------
// The three things of the day
// ---------------------------------------------------------------------------

/// What is asked for the three things of the day.
pub open spec fn tldr_request_for(b: BriefingView, template: Seq<char>) -> CompletionView {
    CompletionView {
        temperature: TEMPERATURE_4,
        max_tokens: Some(SYNTH_MAX_TOKENS),
        ..plain_request(filled(template, item_lines(shown_items(b.sections))))
    }
}

/// The request for the three things of the day.
pub fn tldr_request(b: &Briefing, template: &str) -> (r: Completion)
    ensures
        r@ == tldr_request_for(b@, template@),
{
    let text = section_items_text(b);
    Completion::new(fill(template, &text)).temperature(TEMPERATURE_4).max_tokens(SYNTH_MAX_TOKENS)
}

/// A line without what marks it as a point of a list.
pub open spec fn point(line: Seq<char>) -> Seq<char> {
    trimmed(left_trimmed(line, CharClass::Bullet), CharClass::WhiteSpace)
}

/// The points of some lines, without empty ones.
pub open spec fn points(lines: Seq<Seq<char>>) -> Seq<Seq<char>>
    decreases lines.len(),
{
    if lines.len() == 0 {
        seq![]
    } else if point(lines.last()).len() == 0 {
        points(lines.drop_last())
    } else {
        points(lines.drop_last()).push(point(lines.last()))
    }
}

/// The first three points of a model's reply.
pub open spec fn three_points(reply: Seq<char>) -> Seq<Seq<char>> {
    first_of(points(lines(reply)), 3)
}

/// Reads the three things of the day off a model's reply.
pub fn tldr_bullets(reply: &str) -> (r: Vec<String>)
    ensures
        views(r@) == three_points(reply@),
        r@.len() <= 3,
{
    let all = split_lines(reply);
    let ghost seen = views(all@);
    let mut out: Vec<String> = Vec::new();
    let mut i: usize = 0;
    assert(views(out@) =~= seq![]);
    while i < all.len()
        invariant
            i <= all@.len(),
            seen == views(all@),
            views(out@) == points(seen.take(i as int)),
        decreases all.len() - i,
    {
        let open = trim_start(&all[i], CharClass::Bullet);
        let text = trim(&open, CharClass::WhiteSpace);
        proof {
            assert(seen.take(i + 1).drop_last() =~= seen.take(i as int));
            assert(seen.take(i + 1).last() == all@[i as int]@);
        }
        if !text.as_str().is_empty() {
            let ghost prev = out@;
            let ghost line = text@;
            out.push(text);
            assert(views(out@) =~= views(prev).push(line));
        }
        i = i + 1;
    }
    assert(seen.take(i as int) =~= seen);
    let ghost found = views(out@);
    if out.len() > 3 {
        out.truncate(3);
        assert(views(out@) =~= found.take(3));
    }
    out
}

// ---------------------------------------------------------------------------
// The counterpoint
// ---------------------------------------------------------------------------

/// What is asked for the counterpoint.
pub open spec fn counterpoint_request_for(b: BriefingView) -> CompletionView {
    CompletionView {
        system: Some(COUNTERPOINT_SYSTEM@),
        temperature: TEMPERATURE_6,
        max_tokens: Some(SYNTH_MAX_TOKENS),
        ..plain_request(replaced(COUNTERPOINT_PROMPT@, ITEMS_SLOT@, item_lines(shown_items(b.sections))))
    }
}

/// The request for the counterpoint.
pub fn counterpoint_request(b: &Briefing) -> (r: Completion)
    ensures
        r@ == counterpoint_request_for(b@),
{
    proof {
        reveal_strlit("{items}");
    }
    let text = section_items_text(b);
    Completion::new(replace(COUNTERPOINT_PROMPT, ITEMS_SLOT, &text)).with_system(COUNTERPOINT_SYSTEM).temperature(
        TEMPERATURE_6,
    ).max_tokens(SYNTH_MAX_TOKENS)
}

/// The item of a counterpoint: it has no address and no instant.
pub open spec fn counterpoint_for(text: Seq<char>, date: Seq<char>) -> ItemView {
    ItemView {
        id: "counterpoint-"@ + date,
        source_id: "ibrief"@,
        title: COUNTERPOINT_TITLE@,
        url: seq![],
        published_at: None,
        raw_summary: None,
        summary: Some(text),
        topics: seq![],
        entities: seq![],
        embedding: None,
    }
}

/// The view of an optional item.
pub open spec fn opt_item(o: Option<ContentItem>) -> Option<ItemView> {
    match o {
        Some(i) => Some(i@),
        None => None,
    }
}

/// The counterpoint that a reply comes to: none if the reply is blank.
pub open spec fn counterpoint_in(reply: Seq<char>, date: Seq<char>) -> Option<ItemView> {
    let text = trimmed(reply, CharClass::WhiteSpace);
    if text.len() == 0 {
        None
    } else {
        Some(counterpoint_for(text, date))
    }
}

/// Makes the counterpoint out of a model's reply.
pub fn counterpoint_item(reply: &str, date: &str) -> (r: Option<ContentItem>)
    ensures
        opt_item(r) == counterpoint_in(reply@, date@),
{
    let text = trim(reply, CharClass::WhiteSpace);
    if text.as_str().is_empty() {
        return None;
    }
    let mut id = String::new();
    id.append("counterpoint-");
    id.append(date);
    assert(id@ =~= "counterpoint-"@ + date@);
    let topics: Vec<String> = Vec::new();
    let entities: Vec<String> = Vec::new();
    assert(views(topics@) =~= seq![] && views(entities@) =~= seq![]);
    Some(
        ContentItem {
            id,
            source_id: "ibrief".to_string(),
            title: COUNTERPOINT_TITLE.to_string(),
            url: String::new(),
            published_at: None,
            raw_summary: None,
            summary: Some(text),
            topics,
            entities,
            embedding: None,
        },
    )
}

// ---------------------------------------------------------------------------
// Enriching
// ---------------------------------------------------------------------------

/// The prompt for the enrichment of an item. It names the vocabulary of the topics.
pub open spec fn enrich_prompt(item: ItemView) -> Seq<char> {
    "Titel: "@ + item.title + "\nText: "@ + (match item.raw_summary {
        Some(s) => s,
        None => seq![],
    })
        + "\n\nGib JSON zurück mit den Feldern \"summary\" (ein prägnanter Satz auf Deutsch) und \"topics\" (max. 3 Schlagworte aus dieser Liste: "@
        + joined(vocabulary(), ", "@) + "). Nur JSON."@
}

/// What is asked for the enrichment of an item.
pub open spec fn enrich_request_for(item: ItemView) -> CompletionView {
    CompletionView {
        system: Some(ENRICH_SYSTEM@),
        temperature: TEMPERATURE_3,
        max_tokens: Some(ENRICH_MAX_TOKENS),
        ..plain_request(enrich_prompt(item))
    }
}

/// The request for the enrichment of an item.
pub fn enrich_request(item: &ContentItem) -> (r: Completion)
    ensures
        r@ == enrich_request_for(item@),
{
    let mut prompt = String::new();
    prompt.append("Titel: ");
    prompt.append(&item.title);
    prompt.append("\nText: ");
    match &item.raw_summary {
        Some(s) => {
            prompt.append(s);
        },
        None => {},
    }
    prompt.append(
        "\n\nGib JSON zurück mit den Feldern \"summary\" (ein prägnanter Satz auf Deutsch) und \"topics\" (max. 3 Schlagworte aus dieser Liste: ",
    );
    prompt.append(&vocabulary_list());
    prompt.append("). Nur JSON.");
    assert(prompt@ =~= enrich_prompt(item@));
    Completion::new(prompt).with_system(ENRICH_SYSTEM).temperature(TEMPERATURE_3).max_tokens(ENRICH_MAX_TOKENS)
}

/// What a model found out about an item.
#[derive(Debug)]
pub struct Enrichment {
    pub summary: String,
    pub topics: Vec<String>,
}

/// An item with what a model found out, unchanged where the model failed.
pub open spec fn enriched(item: ItemView, found: Option<Enrichment>) -> ItemView {
    match found {
        Some(e) => ItemView { summary: Some(e.summary@), topics: views(e.topics@), ..item },
        None => item,
    }
}

/// How many items are enriched: at most `max`.
pub fn enrich_count(items: &Vec<ContentItem>, max: usize) -> (r: usize)
    ensures
        r <= max,
        r <= items@.len(),
        r == max || r == items@.len(),
        r == if max <= items@.len() {
            max as int
        } else {
            items@.len() as int
        },
{
    if max <= items.len() {
        max
    } else {
        items.len()
    }
}

/// Where the batch that starts at `start` ends, of `n` items to enrich.
pub fn batch_end(start: usize, n: usize) -> (r: usize)
    requires
        start < n,
    ensures
        start < r <= n,
        r - start <= CONCURRENCY,
        r == n || r - start == CONCURRENCY,
        r == if n - start <= CONCURRENCY {
            n as int
        } else {
            start + CONCURRENCY
        },
{
    if n - start <= CONCURRENCY {
        n
    } else {
        start + CONCURRENCY
    }
}

/// Writes what a model found out into the first items: into each item what was
/// found out about it, or nothing where the model failed on it.
pub fn enrich(items: Vec<ContentItem>, found: Vec<Option<Enrichment>>) -> (r: Vec<ContentItem>)
    requires
        found@.len() <= items@.len(),
    ensures
        r@.len() == items@.len(),
        forall|i: int|
            0 <= i < r@.len() ==> (#[trigger] r@[i])@ == if i < found@.len() {
                enriched(items@[i]@, found@[i])
            } else {
                items@[i]@
            },
{
    let mut out: Vec<ContentItem> = Vec::new();
    let mut i: usize = 0;
    while i < items.len()
        invariant
            i <= items@.len(),
            out@.len() == i,
            forall|k: int|
                0 <= k < i ==> (#[trigger] out@[k])@ == if k < found@.len() {
                    enriched(items@[k]@, found@[k])
                } else {
                    items@[k]@
                },
        decreases items.len() - i,
    {
        let mut item = items[i].clone();
        if i < found.len() {
            match &found[i] {
                Some(e) => {
                    item.summary = Some(e.summary.clone());
                    item.topics = crate::text::clone_texts(&e.topics);
                },
                None => {},
            }
        }
        push_item(&mut out, item);
        i = i + 1;
    }
    out
}

// ---------------------------------------------------------------------------
// What is written, and what is read
// ---------------------------------------------------------------------------

/// The models see every item, on a line of its own: its summary, or its title where
/// it has none.
pub proof fn every_item_has_a_line(a: Seq<ItemView>, b: Seq<ItemView>, one: ItemView)
    ensures
        item_lines(a + b) == item_lines(a) + item_lines(b),
        one.summary is Some ==> item_lines(seq![one]) == "- "@ + one.summary->0 + "\n"@,
        one.summary is None ==> item_lines(seq![one]) == "- "@ + one.title + "\n"@,
        item_lines(a).len() == 0 <==> a.len() == 0,
    decreases b.len(),
{
    reveal_strlit("- ");
    assert(seq![one].drop_last() =~= Seq::<ItemView>::empty());
    assert(item_lines(seq![one].drop_last()) =~= Seq::<char>::empty());
    assert(item_lines(seq![one]) =~= "- "@ + headline(one) + "\n"@);
    if b.len() == 0 {
        assert(a + b =~= a);
        assert(item_lines(a) + item_lines(b) =~= item_lines(a));
    } else {
        every_item_has_a_line(a, b.drop_last(), one);
        assert((a + b).drop_last() =~= a + b.drop_last());
        assert(item_lines(a + b) =~= item_lines(a) + item_lines(b));
    }
}

/// The items stand in the template where it has a slot for them, and behind it where
/// it has none.
pub proof fn items_reach_the_prompt(x: Seq<char>, y: Seq<char>, items: Seq<char>)
    ensures
        has_part(filled(x, items), items),
        (forall|p: Seq<char>, q: Seq<char>| x != #[trigger] (p + "{items}"@ + q)) ==> filled(x, items) == x + "\n\n"@
            + items,
        filled("{items}"@ + y, items) == items + replaced(y, "{items}"@, items),
{
    reveal_strlit("{items}");
    let slot = ITEMS_SLOT@;
    part_stands_between(seq![] + slot + y, slot, seq![], y);
    assert(seq![] + slot + y =~= slot + y);
    every_occurrence_is_replaced(y, slot, items);
    part_stands_between(x, slot, seq![], seq![]);
    if has_part(x, slot) {
        lemma_replacement_stands(x, slot, items);
    } else {
        part_stands_between(x, items, x + "\n\n"@, seq![]);
        assert(x + "\n\n"@ + items + seq![] =~= x + "\n\n"@ + items);
    }
}

proof fn lemma_replacement_stands(s: Seq<char>, t: Seq<char>, by: Seq<char>)
    requires
        t.len() > 0,
        has_part(s, t),
    ensures
        has_part(replaced(s, t, by), by),
    decreases s.len(),
{
    let i = choose|i: int| #[trigger] stands_at(s, t, i);
    if t.is_prefix_of(s) {
        let rest = s.skip(t.len() as int);
        assert(s =~= t + rest);
        every_occurrence_is_replaced(rest, t, by);
        part_stands_between(s, by, seq![], replaced(rest, t, by));
        assert(seq![] + by + replaced(rest, t, by) =~= by + replaced(rest, t, by));
    } else {
        let rest = s.drop_first();
        assert(i > 0) by {
            if i == 0 {
                assert(s.take(t.len() as int) =~= t);
            }
        }
        assert(rest.subrange(i - 1, i - 1 + t.len()) =~= s.subrange(i, i + t.len()));
        assert(stands_at(rest, t, i - 1));
        lemma_replacement_stands(rest, t, by);
        every_occurrence_is_replaced(s, t, by);
        let r = replaced(rest, t, by);
        part_stands_between(r, by, seq![], seq![]);
        let (p, q) = choose|p: Seq<char>, q: Seq<char>| r == #[trigger] (p + by + q);
        part_stands_between(s, by, seq![s[0]] + p, q);
        assert(seq![s[0]] + p + by + q =~= seq![s[0]] + r);
    }
}

/// A point is its line without what marks it as a point of a list, and without the
/// blanks around it.
pub proof fn point_is_the_text_of_its_line(line: Seq<char>) -> (r: (int, int, int))
    ensures
        0 <= r.0 <= r.1 <= r.2 <= line.len(),
        point(line) == line.subrange(r.1, r.2),
        forall|i: int|
            0 <= i < r.0 ==> (#[trigger] line[i]) == '-' || line[i] == '*' || line[i] == '•' || line[i] == ' ',
        r.0 < line.len() ==> line[r.0] != '-' && line[r.0] != '*' && line[r.0] != '•' && line[r.0] != ' ',
        forall|i: int| r.0 <= i < r.1 ==> white_space(#[trigger] line[i]),
        forall|i: int| r.2 <= i < line.len() ==> white_space(#[trigger] line[i]),
        r.1 < r.2 ==> !white_space(line[r.1]) && !white_space(line[r.2 - 1]),
{
    let m = left_trimming_takes_the_start(line, CharClass::Bullet);
    let rest = left_trimmed(line, CharClass::Bullet);
    let ends = trimming_takes_the_ends(rest, CharClass::WhiteSpace);
    assert(point(line) =~= line.subrange(m + ends.0, m + ends.1));
    assert forall|i: int| m <= i < m + ends.0 implies white_space(#[trigger] line[i]) by {
        assert(CharClass::WhiteSpace.has(rest[i - m]));
    }
    assert forall|i: int| m + ends.1 <= i < line.len() implies white_space(#[trigger] line[i]) by {
        assert(CharClass::WhiteSpace.has(rest[i - m]));
    }
    assert forall|i: int| 0 <= i < m implies (#[trigger] line[i]) == '-' || line[i] == '*' || line[i] == '•' || line[i]
        == ' ' by {
        assert(CharClass::Bullet.has(line[i]));
    }
    if m < line.len() {
        assert(!CharClass::Bullet.has(line[m]));
    }
    if ends.0 < ends.1 {
        assert(line[m + ends.0] == rest[ends.0] && line[m + ends.1 - 1] == rest[ends.1 - 1]);
    }
    (m, m + ends.0, m + ends.1)
}

/// Every line with text gives its point, in order, and no other line gives one.
pub proof fn lines_with_text_are_points(a: Seq<Seq<char>>, b: Seq<Seq<char>>, one: Seq<char>)
    ensures
        points(a + b) == points(a) + points(b),
        point(one).len() > 0 ==> points(seq![one]) == seq![point(one)],
        point(one).len() == 0 ==> points(seq![one]).len() == 0,
    decreases b.len(),
{
    assert(seq![one].drop_last() =~= Seq::<Seq<char>>::empty());
    assert(points(seq![one].drop_last()) =~= Seq::<Seq<char>>::empty());
    assert(point(one).len() > 0 ==> points(seq![one]) =~= seq![point(one)]);
    if b.len() == 0 {
        assert(a + b =~= a);
        assert(points(a) + points(b) =~= points(a));
    } else {
        lines_with_text_are_points(a, b.drop_last(), one);
        assert((a + b).drop_last() =~= a + b.drop_last());
        assert(points(a + b) =~= points(a) + points(b));
    }
}

/// The three things of the day are the first three points of the reply; all of them
/// where there are fewer.
pub proof fn first_points_are_taken(reply: Seq<char>)
    ensures
        three_points(reply).is_prefix_of(points(lines(reply))),
        three_points(reply).len() <= 3,
        three_points(reply).len() < 3 ==> three_points(reply) == points(lines(reply)),
{
    let all = points(lines(reply));
    assert(all.take(all.len() as int) =~= all);
}

/// A reply with text gives a counterpoint: the text without the blanks around it, by
/// the desk itself, without a link, and with an identifier for each day.
pub proof fn counterpoint_is_the_reply(reply: Seq<char>, date: Seq<char>, other: Seq<char>)
    ensures
        counterpoint_in(reply, date) is None <==> forall|i: int| 0 <= i < reply.len() ==> white_space(#[trigger] reply[i]),
        counterpoint_in(reply, date) is Some ==> {
            let it = counterpoint_in(reply, date)->0;
            &&& it.summary == Some(trimmed(reply, CharClass::WhiteSpace))
            &&& it.url.len() == 0
            &&& it.title == COUNTERPOINT_TITLE@
            &&& it.topics.len() == 0
            &&& counterpoint_in(reply, other) is Some
            &&& it.id == counterpoint_in(reply, other)->0.id <==> date == other
        },
{
    let ends = trimming_takes_the_ends(reply, CharClass::WhiteSpace);
    if ends.0 < ends.1 {
        assert(!white_space(reply[ends.0]));
    } else {
        assert forall|i: int| 0 <= i < reply.len() implies white_space(#[trigger] reply[i]) by {
            assert(CharClass::WhiteSpace.has(reply[i]));
        }
    }
    let head = "counterpoint-"@;
    assert((head + date).skip(head.len() as int) =~= date);
    assert((head + other).skip(head.len() as int) =~= other);
}

/// Enriching gives an item the summary and the topics of the reply, and changes
/// nothing else of it; without a reply it changes nothing.
pub proof fn enriching_adds_to_an_item(item: ItemView, found: Option<Enrichment>)
    ensures
        enriched(item, found).id == item.id,
        enriched(item, found).source_id == item.source_id,
        enriched(item, found).title == item.title,
        enriched(item, found).url == item.url,
        enriched(item, found).published_at == item.published_at,
        enriched(item, found).raw_summary == item.raw_summary,
        enriched(item, found).entities == item.entities,
        enriched(item, found).embedding == item.embedding,
        found is None ==> enriched(item, found) == item,
        found is Some ==> enriched(item, found).summary == Some(found->0.summary@) && enriched(item, found).topics
            == views(found->0.topics@),
{
}

/// A model that enriches sees the title and the text of the item, and every topic of
/// the vocabulary.
pub proof fn enriching_sees_the_item(item: ItemView)
    ensures
        has_part(enrich_prompt(item), item.title),
        item.raw_summary is Some ==> has_part(enrich_prompt(item), item.raw_summary->0),
        has_part(enrich_prompt(item), joined(vocabulary(), ", "@)),
{
    let p = enrich_prompt(item);
    let text = match item.raw_summary {
        Some(s) => s,
        None => seq![],
    };
    let ask = "\n\nGib JSON zurück mit den Feldern \"summary\" (ein prägnanter Satz auf Deutsch) und \"topics\" (max. 3 Schlagworte aus dieser Liste: "@;
    let all = joined(vocabulary(), ", "@);
    let tail = "). Nur JSON."@;
    part_stands_between(p, item.title, "Titel: "@, "\nText: "@ + text + ask + all + tail);
    assert(p =~= "Titel: "@ + item.title + ("\nText: "@ + text + ask + all + tail));
    part_stands_between(p, text, "Titel: "@ + item.title + "\nText: "@, ask + all + tail);
    assert(p =~= "Titel: "@ + item.title + "\nText: "@ + text + (ask + all + tail));
    part_stands_between(p, all, "Titel: "@ + item.title + "\nText: "@ + text + ask, tail);
}

} // verus!
