//! The briefing as Markdown.

use crate::briefing::{Briefing, BriefingSection, BriefingView, ContentItem, ItemView, SectionView};
use crate::eval::{point_lines, push_points};
use crate::scan::{has_part, part_of_a_part, part_stands_between};
use crate::text::views;
use vstd::prelude::*;

verus! {

/// An item as Markdown: its title, its summary, and where it comes from.
pub open spec fn item_block(it: ItemView) -> Seq<char> {
    "### "@ + it.title + "\n"@ + (match it.summary {
        Some(s) => s + "\n\n"@,
        None => seq![],
    }) + (if it.url.len() > 0 {
        "[Quelle]("@ + it.url + ") · _"@ + it.source_id + "_\n\n"@
    } else {
        seq![]
    })
}

/// Some items as Markdown.
pub open spec fn item_blocks(items: Seq<ItemView>) -> Seq<char>
    decreases items.len(),
{
    if items.len() == 0 {
        seq![]
    } else {
        item_blocks(items.drop_last()) + item_block(items.last())
    }
}

/// A section as Markdown.
pub open spec fn section_block(s: SectionView) -> Seq<char> {
    "## "@ + s.title + "\n\n"@ + item_blocks(s.items)
}

/// Some sections as Markdown.
pub open spec fn section_blocks(sections: Seq<SectionView>) -> Seq<char>
    decreases sections.len(),
{
    if sections.len() == 0 {
        seq![]
    } else {
        section_blocks(sections.drop_last()) + section_block(sections.last())
    }
}

/// A briefing as Markdown.
pub open spec fn rendered(b: BriefingView) -> Seq<char> {
    "# Morning Briefing — "@ + b.date + "\n\n"@ + (if b.tldr.len() > 0 {
        "## Die 3 Dinge heute\n\n"@ + point_lines(b.tldr) + "\n"@
    } else {
        seq![]
    }) + section_blocks(b.sections)
}

/// Writes an item.
fn push_item_block(out: &mut String, it: &ContentItem)
    ensures
        final(out)@ == old(out)@ + item_block(it@),
{
    let ghost before = out@;
    out.append("### ");
    out.append(&it.title);
    out.append("\n");
    match &it.summary {
        Some(s) => {
            out.append(s);
            out.append("\n\n");
        },
        None => {},
    }
    if !it.url.as_str().is_empty() {
        out.append("[Quelle](");
        out.append(&it.url);
        out.append(") · _");
        out.append(&it.source_id);
        out.append("_\n\n");
    }
    assert(out@ =~= before + item_block(it@));
}

/// Writes a section.
fn push_section_block(out: &mut String, s: &BriefingSection)
    ensures
        final(out)@ == old(out)@ + section_block(s@),
{
    let ghost before = out@;
    out.append("## ");
    out.append(&s.title);
    out.append("\n\n");
    let ghost head = out@;
    let ghost all = s@.items;
    let mut i: usize = 0;
    assert(head + item_blocks(all.take(0)) =~= head);
    while i < s.items.len()
        invariant
            i <= s.items@.len(),
            all == views(s.items@),
            out@ == head + item_blocks(all.take(i as int)),
        decreases s.items.len() - i,
    {
        push_item_block(out, &s.items[i]);
        proof {
            assert(all.take(i + 1).drop_last() =~= all.take(i as int));
            assert(all.take(i + 1).last() == s.items@[i as int]@);
            assert(out@ =~= head + item_blocks(all.take(i + 1)));
        }
        i = i + 1;
    }
    assert(all.take(i as int) =~= all);
    assert(out@ =~= before + section_block(s@));
}

/// Writes a briefing as Markdown.
pub fn render(briefing: &Briefing) -> (r: String)
    ensures
        r@ == rendered(briefing@),
{
    let mut out = String::new();
    out.append("# Morning Briefing — ");
    out.append(&briefing.date);
    out.append("\n\n");
    if briefing.tldr.len() > 0 {
        out.append("## Die 3 Dinge heute\n\n");
        push_points(&mut out, &briefing.tldr);
        out.append("\n");
    }
    let ghost head = out@;
    let ghost all = briefing@.sections;
    let mut i: usize = 0;
    assert(head + section_blocks(all.take(0)) =~= head);
    while i < briefing.sections.len()
        invariant
            i <= briefing.sections@.len(),
            all == views(briefing.sections@),
            out@ == head + section_blocks(all.take(i as int)),
        decreases briefing.sections.len() - i,
    {
        push_section_block(&mut out, &briefing.sections[i]);
        proof {
            assert(all.take(i + 1).drop_last() =~= all.take(i as int));
            assert(all.take(i + 1).last() == briefing.sections@[i as int]@);
            assert(out@ =~= head + section_blocks(all.take(i + 1)));
        }
        i = i + 1;
    }
    assert(all.take(i as int) =~= all);
    assert(out@ =~= rendered(briefing@));
    out
}

/// Where the briefing of a day is written.
pub fn output_path(date: &str) -> (r: String)
    ensures
        r@ == "out/briefing-"@ + date@ + ".md"@,
{
    let mut out = String::new();
    out.append("out/briefing-");
    out.append(date);
    out.append(".md");
    assert(out@ =~= "out/briefing-"@ + date@ + ".md"@);
    out
}

// ---------------------------------------------------------------------------
// What a reader sees
// ---------------------------------------------------------------------------

/// Sections and items are written one behind the other, in their order.
pub proof fn blocks_follow_each_other(a: Seq<ItemView>, b: Seq<ItemView>, p: Seq<SectionView>, q: Seq<SectionView>)
    ensures
        item_blocks(a + b) == item_blocks(a) + item_blocks(b),
        section_blocks(p + q) == section_blocks(p) + section_blocks(q),
    decreases b.len() + q.len(),
{
    if b.len() > 0 {
        blocks_follow_each_other(a, b.drop_last(), p, q);
        assert((a + b).drop_last() =~= a + b.drop_last());
        assert(item_blocks(a + b) =~= item_blocks(a) + item_blocks(b));
    } else if q.len() > 0 {
        blocks_follow_each_other(a, b, p, q.drop_last());
        assert((p + q).drop_last() =~= p + q.drop_last());
        assert(section_blocks(p + q) =~= section_blocks(p) + section_blocks(q));
    } else {
        assert(a + b =~= a);
        assert(p + q =~= p);
        assert(item_blocks(a) + item_blocks(b) =~= item_blocks(a));
        assert(section_blocks(p) + section_blocks(q) =~= section_blocks(p));
    }
}

/// An item is written with its title, with its summary where it has one, and with its
/// link and its source where it has a link.
pub proof fn item_is_written_out(it: ItemView)
    ensures
        it.summary is None && it.url.len() == 0 ==> item_block(it) == "### "@ + it.title + "\n"@,
        it.summary is Some && it.url.len() == 0 ==> item_block(it) == "### "@ + it.title + "\n"@ + it.summary->0
            + "\n\n"@,
        it.url.len() > 0 ==> item_block(it) == item_block((ItemView { url: seq![], ..it })) + "[Quelle]("@ + it.url
            + ") · _"@ + it.source_id + "_\n\n"@,
{
    let plain = ItemView { url: seq![], ..it };
    if it.url.len() > 0 {
        assert(item_block(it) =~= item_block(plain) + "[Quelle]("@ + it.url + ") · _"@ + it.source_id + "_\n\n"@);
    } else if it.summary is None {
        assert(item_block(it) =~= "### "@ + it.title + "\n"@);
    } else {
        assert(item_block(it) =~= "### "@ + it.title + "\n"@ + it.summary->0 + "\n\n"@);
    }
}

/// Nothing of a briefing is left out: every section and every item of it is in the
/// text, and so is every one of the things of the day.
pub proof fn everything_is_written(b: BriefingView, s: int, i: int, t: int)
    requires
        0 <= s < b.sections.len(),
        0 <= i < b.sections[s].items.len(),
    ensures
        has_part(rendered(b), b.date),
        has_part(rendered(b), "## "@ + b.sections[s].title + "\n\n"@),
        has_part(rendered(b), item_block(b.sections[s].items[i])),
        0 <= t < b.tldr.len() ==> has_part(rendered(b), "- "@ + b.tldr[t] + "\n"@),
{
    let sec = b.sections[s];
    let it = sec.items[i];
    lemma_head_written(b);
    lemma_section_written(b.sections, s);
    part_of_a_part(rendered(b), section_blocks(b.sections), section_block(sec));
    let title = "## "@ + sec.title + "\n\n"@;
    part_stands_between(title, title, seq![], item_blocks(sec.items));
    assert(seq![] + title + item_blocks(sec.items) =~= section_block(sec));
    part_of_a_part(rendered(b), section_block(sec), title);
    lemma_item_written(sec.items, i);
    part_stands_between(title, item_blocks(sec.items), title, seq![]);
    assert(title + item_blocks(sec.items) + seq![] =~= section_block(sec));
    part_of_a_part(section_block(sec), item_blocks(sec.items), item_block(it));
    part_of_a_part(rendered(b), section_block(sec), item_block(it));
    if 0 <= t < b.tldr.len() {
        lemma_point_line(b.tldr, t);
        part_of_a_part(rendered(b), point_lines(b.tldr), "- "@ + b.tldr[t] + "\n"@);
    }
}

proof fn lemma_head_written(b: BriefingView)
    ensures
        has_part(rendered(b), b.date),
        has_part(rendered(b), section_blocks(b.sections)),
        b.tldr.len() > 0 ==> has_part(rendered(b), point_lines(b.tldr)),
{
    let text = rendered(b);
    let a = "# Morning Briefing — "@;
    let start = a + b.date + "\n\n"@;
    let all = section_blocks(b.sections);
    let head = "## Die 3 Dinge heute\n\n"@;
    let points = point_lines(b.tldr);
    let today = if b.tldr.len() > 0 {
        head + points + "\n"@
    } else {
        seq![]
    };
    assert(text == start + today + all);
    part_stands_between(text, all, start + today, seq![]);
    assert(start + today + all + seq![] =~= text);
    part_stands_between(text, start, seq![], today + all);
    assert(seq![] + start + (today + all) =~= text);
    part_stands_between(text, b.date, a, "\n\n"@);
    part_of_a_part(text, start, b.date);
    part_stands_between(text, today, start, all);
    if b.tldr.len() > 0 {
        part_stands_between(text, points, head, "\n"@);
        part_of_a_part(text, today, points);
    }
}

proof fn lemma_section_written(sections: Seq<SectionView>, s: int)
    requires
        0 <= s < sections.len(),
    ensures
        has_part(section_blocks(sections), section_block(sections[s])),
    decreases sections.len(),
{
    let all = section_blocks(sections);
    let before = section_blocks(sections.drop_last());
    let last = section_block(sections.last());
    if s == sections.len() - 1 {
        part_stands_between(all, last, before, seq![]);
        assert(before + last + seq![] =~= all);
    } else {
        lemma_section_written(sections.drop_last(), s);
        part_stands_between(all, before, seq![], last);
        assert(seq![] + before + last =~= all);
        part_of_a_part(all, before, section_block(sections[s]));
    }
}

proof fn lemma_item_written(items: Seq<ItemView>, i: int)
    requires
        0 <= i < items.len(),
    ensures
        has_part(item_blocks(items), item_block(items[i])),
    decreases items.len(),
{
    let all = item_blocks(items);
    let before = item_blocks(items.drop_last());
    let last = item_block(items.last());
    if i == items.len() - 1 {
        part_stands_between(all, last, before, seq![]);
        assert(before + last + seq![] =~= all);
    } else {
        lemma_item_written(items.drop_last(), i);
        part_stands_between(all, before, seq![], last);
        assert(seq![] + before + last =~= all);
        part_of_a_part(all, before, item_block(items[i]));
    }
}

proof fn lemma_point_line(list: Seq<Seq<char>>, t: int)
    requires
        0 <= t < list.len(),
    ensures
        has_part(point_lines(list), "- "@ + list[t] + "\n"@),
    decreases list.len(),
{
    let all = point_lines(list);
    let before = point_lines(list.drop_last());
    let last = "- "@ + list.last() + "\n"@;
    assert(all =~= before + last);
    if t == list.len() - 1 {
        part_stands_between(all, last, before, seq![]);
        assert(before + last + seq![] =~= all);
    } else {
        lemma_point_line(list.drop_last(), t);
        part_stands_between(all, before, seq![], last);
        assert(seq![] + before + last =~= all);
        part_of_a_part(all, before, "- "@ + list[t] + "\n"@);
    }
}

} // verus!
