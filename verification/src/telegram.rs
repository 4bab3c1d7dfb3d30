//! The way to the reader and back: the briefing as messages with two buttons
//! each, and what a pressed button says.
//!
//! A button carries at most 64 bytes. It names the day, the position of the item
//! and the kind of feedback; the store knows which item stands at the position.

use crate::briefing::{list_items, shown_items, Briefing, BriefingView, ContentItem, ItemView};
use crate::feedback::{kind_name, kind_of, FeedbackKind};
use crate::number::{
    decimal, is_digit, parse_integer, parsed_integer, print_integer, printed_integer_characters,
    printed_integer_is_read_back, signed_decimal,
};
use crate::scan::{has_part, part_of_a_part, part_stands_between, pieces, split, strip_md, stripped};
use crate::text::{same, views};
use vstd::prelude::*;
use vstd::utf8::encode_utf8;

verus! {

/// How many bytes a button may carry.
pub const CALLBACK_LIMIT: usize = 64;

/// The access to a chat.
#[derive(Debug)]
pub struct Telegram {
    pub token: String,
    pub chat_id: String,
}

impl Telegram {
    pub fn new(token: String, chat_id: String) -> (r: Telegram)
        ensures
            r.token@ == token@,
            r.chat_id@ == chat_id@,
    {
        Telegram { token, chat_id }
    }

    /// The address of a method.
    pub fn url(&self, method: &str) -> (r: String)
        ensures
            r@ == "https://api.telegram.org/bot"@ + self.token@ + "/"@ + method@,
    {
        let mut out = String::new();
        out.append("https://api.telegram.org/bot");
        out.append(&self.token);
        out.append("/");
        out.append(method);
        assert(out@ =~= "https://api.telegram.org/bot"@ + self.token@ + "/"@ + method@);
        out
    }
}

// ---------------------------------------------------------------------------
// Buttons
// ---------------------------------------------------------------------------

/// What a button carries.
pub open spec fn callback_for(date: Seq<char>, position: int, kind: FeedbackKind) -> Seq<char> {
    "fb:"@ + date + ":"@ + signed_decimal(position) + ":"@ + kind_name(kind)
}

/// Writes what a button carries.
pub fn callback_data(date: &str, position: i64, kind: FeedbackKind) -> (r: String)
    ensures
        r@ == callback_for(date@, position as int, kind),
{
    let mut out = String::new();
    out.append("fb:");
    out.append(date);
    out.append(":");
    out.append(&print_integer(position));
    out.append(":");
    out.append(kind.as_str());
    assert(out@ =~= callback_for(date@, position as int, kind));
    out
}

/// What a pressed button says: the day, the position and the kind of feedback.
/// What may follow the kind is passed over.
pub open spec fn callback_in(data: Seq<char>) -> Option<(Seq<char>, i64, FeedbackKind)> {
    let p = pieces(data, ':');
    if p.len() < 4 || p[0] != "fb"@ {
        None
    } else {
        match (parsed_integer(p[2]), kind_of(p[3])) {
            (Some(n), Some(k)) => Some((p[1], n, k)),
            _ => None,
        }
    }
}

/// Reads what a pressed button says.
pub fn parse_callback(data: &str) -> (r: Option<(String, i64, FeedbackKind)>)
    ensures
        match r {
            Some((date, position, kind)) => callback_in(data@) == Some((date@, position, kind)),
            None => callback_in(data@) is None,
        },
{
    let p = split(data, ':');
    let ghost all = pieces(data@, ':');
    assert(all.len() == p@.len());
    if p.len() < 4 {
        return None;
    }
    assert(all[0] == p@[0]@ && all[1] == p@[1]@ && all[2] == p@[2]@ && all[3] == p@[3]@);
    if !same(&p[0], "fb") {
        return None;
    }
    match (parse_integer(&p[2]), FeedbackKind::parse(&p[3])) {
        (Some(position), Some(kind)) => Some((p[1].clone(), position, kind)),
        _ => None,
    }
}

/// Characters other than the separator lengthen the last piece.
proof fn lemma_pieces_extend(s: Seq<char>, t: Seq<char>, at: char)
    requires
        forall|i: int| 0 <= i < t.len() ==> #[trigger] t[i] != at,
    ensures
        pieces(s, at).len() > 0,
        pieces(s + t, at) == pieces(s, at).drop_last().push(pieces(s, at).last() + t),
    decreases t.len(),
{
    lemma_pieces_nonempty(s, at);
    let p = pieces(s, at);
    if t.len() == 0 {
        assert(s + t =~= s);
        assert(p.drop_last().push(p.last() + t) =~= p) by {
            assert(p.last() + t =~= p.last());
        }
    } else {
        let u = t.drop_last();
        assert forall|i: int| 0 <= i < u.len() implies #[trigger] u[i] != at by {
            assert(t[i] != at);
        }
        lemma_pieces_extend(s, u, at);
        assert((s + t).drop_last() =~= s + u);
        assert((s + t).last() == t.last());
        assert(t[t.len() - 1] != at);
        let q = pieces(s + u, at);
        assert(q.last() == p.last() + u);
        assert(q.drop_last() =~= p.drop_last());
        assert((p.last() + u).push(t.last()) =~= p.last() + t);
    }
}

proof fn lemma_pieces_nonempty(s: Seq<char>, at: char)
    ensures
        pieces(s, at).len() > 0,
    decreases s.len(),
{
    if s.len() > 0 {
        lemma_pieces_nonempty(s.drop_last(), at);
    }
}

/// A separator and a piece behind a text give one more piece.
proof fn lemma_pieces_append(s: Seq<char>, t: Seq<char>, at: char)
    requires
        forall|i: int| 0 <= i < t.len() ==> #[trigger] t[i] != at,
    ensures
        pieces(s + seq![at] + t, at) == pieces(s, at).push(t),
{
    let mid = s + seq![at];
    assert(mid.drop_last() =~= s);
    assert(mid.last() == at);
    assert(pieces(mid, at) == pieces(s, at).push(Seq::<char>::empty()));
    lemma_pieces_extend(mid, t, at);
    assert(pieces(s, at).push(Seq::<char>::empty()).drop_last() =~= pieces(s, at));
    assert(Seq::<char>::empty() + t =~= t);
}

/// The parts that `callback_for` puts together.
proof fn lemma_callback_pieces(date: Seq<char>, position: int, kind: FeedbackKind)
    requires
        forall|i: int| 0 <= i < date.len() ==> #[trigger] date[i] != ':',
    ensures
        pieces(callback_for(date, position, kind), ':') == seq![
            "fb"@,
            date,
            signed_decimal(position),
            kind_name(kind),
        ],
{
    reveal_strlit("fb");
    reveal_strlit("fb:");
    reveal_strlit(":");
    reveal_strlit("up");
    reveal_strlit("down");
    reveal_strlit("more");
    reveal_strlit("less");
    reveal_strlit("open");
    let number = signed_decimal(position);
    let name = kind_name(kind);
    printed_integer_characters(position);
    assert forall|i: int| 0 <= i < number.len() implies #[trigger] number[i] != ':' by {
        assert(is_digit(number[i]) || number[i] == '-');
    }
    assert forall|i: int| 0 <= i < name.len() implies #[trigger] name[i] != ':' by {
        match kind {
            FeedbackKind::Up => {
                assert(i == 0 || i == 1);
            },
            FeedbackKind::Down => {
                assert(i == 0 || i == 1 || i == 2 || i == 3);
            },
            FeedbackKind::More => {
                assert(i == 0 || i == 1 || i == 2 || i == 3);
            },
            FeedbackKind::Less => {
                assert(i == 0 || i == 1 || i == 2 || i == 3);
            },
            FeedbackKind::Open => {
                assert(i == 0 || i == 1 || i == 2 || i == 3);
            },
        }
    }
    let none = Seq::<char>::empty();
    let fb = "fb"@;
    assert forall|i: int| 0 <= i < fb.len() implies #[trigger] fb[i] != ':' by {
        assert(i == 0 || i == 1);
    }
    lemma_pieces_extend(none, fb, ':');
    assert(none + fb =~= fb);
    assert(pieces(none, ':') == seq![none]);
    assert(seq![none].drop_last().push(none + fb) =~= seq![fb]);
    assert(seq![none].last() == none);
    lemma_pieces_append(fb, date, ':');
    let with_date = fb + seq![':'] + date;
    lemma_pieces_append(with_date, number, ':');
    let with_number = with_date + seq![':'] + number;
    lemma_pieces_append(with_number, name, ':');
    assert(callback_for(date, position, kind) =~= with_number + seq![':'] + name) by {
        assert("fb:"@ =~= fb + seq![':']);
        assert(":"@ =~= seq![':']);
    }
    assert(seq![fb].push(date).push(number).push(name) =~= seq![fb, date, number, name]);
}

/// A pressed button says what it carries, for every day that holds no colon.
pub proof fn callback_is_read_back(date: Seq<char>, position: i64, kind: FeedbackKind)
    requires
        forall|i: int| 0 <= i < date.len() ==> #[trigger] date[i] != ':',
    ensures
        callback_in(callback_for(date, position as int, kind)) == Some((date, position, kind)),
{
    lemma_callback_pieces(date, position as int, kind);
    printed_integer_is_read_back(position);
    crate::feedback::kind_survives_its_name(kind, kind_name(kind));
}

/// Ten to the power of `k`.
spec fn power_of_ten(k: nat) -> nat
    decreases k,
{
    if k == 0 {
        1
    } else {
        10 * power_of_ten((k - 1) as nat)
    }
}

/// A number below a power of ten has no more digits than that power has zeros.
proof fn lemma_decimal_length(n: nat, k: nat)
    requires
        k > 0,
        n < power_of_ten(k),
    ensures
        decimal(n).len() <= k,
    decreases k,
{
    if n >= 10 {
        assert(k > 1) by {
            if k == 1 {
                assert(power_of_ten(0) == 1);
            }
        }
        lemma_decimal_length(n / 10, (k - 1) as nat);
    }
}

/// An integer of 64 bits takes at most 20 characters, all of them ASCII.
proof fn lemma_integer_length(n: i64)
    ensures
        signed_decimal(n as int).len() <= 20,
        vstd::utf8::is_ascii_chars(signed_decimal(n as int)),
{
    let m: nat = if n < 0 {
        (-(n as int)) as nat
    } else {
        n as nat
    };
    assert(power_of_ten(19) == 10_000_000_000_000_000_000) by {
        reveal_with_fuel(power_of_ten, 20);
    }
    lemma_decimal_length(m, 19);
    printed_integer_characters(n as int);
}

/// What a button carries fits into it, for a day of up to 35 ASCII characters;
/// days have ten.
pub proof fn callback_fits_the_button(date: Seq<char>, position: i64, kind: FeedbackKind)
    requires
        vstd::utf8::is_ascii_chars(date),
        date.len() <= 35,
    ensures
        encode_utf8(callback_for(date, position as int, kind)).len() <= CALLBACK_LIMIT,
{
    reveal_strlit("fb:");
    reveal_strlit(":");
    reveal_strlit("up");
    reveal_strlit("down");
    reveal_strlit("more");
    reveal_strlit("less");
    reveal_strlit("open");
    lemma_integer_length(position);
    let data = callback_for(date, position as int, kind);
    assert(kind_name(kind).len() <= 4);
    assert(vstd::utf8::is_ascii_chars(kind_name(kind)));
    assert(data.len() <= 3 + 35 + 1 + 20 + 1 + 4);
    assert(vstd::utf8::is_ascii_chars(data));
    vstd::utf8::is_ascii_chars_encode_utf8(data);
}

// ---------------------------------------------------------------------------
// Messages
// ---------------------------------------------------------------------------

/// The two buttons below an item.
#[derive(Debug)]
pub struct Thumbs {
    pub up: String,
    pub down: String,
}

/// A message, with buttons where it is about an item.
#[derive(Debug)]
pub struct Message {
    pub text: String,
    pub thumbs: Option<Thumbs>,
}

/// What a message is.
#[verifier::ext_equal]
pub struct MessageView {
    pub text: Seq<char>,
    pub thumbs: Option<ThumbsView>,
}

/// What the two buttons carry.
#[verifier::ext_equal]
pub struct ThumbsView {
    pub up: Seq<char>,
    pub down: Seq<char>,
}

impl View for Message {
    type V = MessageView;

    open spec fn view(&self) -> MessageView {
        MessageView {
            text: self.text@,
            thumbs: match self.thumbs {
                Some(t) => Some(ThumbsView { up: t.up@, down: t.down@ }),
                None => None,
            },
        }
    }
}

/// The points of the head message.
pub open spec fn head_points(list: Seq<Seq<char>>) -> Seq<char>
    decreases list.len(),
{
    if list.len() == 0 {
        seq![]
    } else {
        head_points(list.drop_last()) + "• "@ + stripped(list.last()) + "\n"@
    }
}

/// The head message: the day and the three things.
pub open spec fn head_message(b: BriefingView) -> MessageView {
    MessageView { text: "*Morning Briefing — "@ + b.date + "*\n"@ + head_points(b.tldr), thumbs: None }
}

/// The message about an item, with the buttons for its position.
pub open spec fn item_message(date: Seq<char>, it: ItemView, position: int) -> MessageView {
    MessageView {
        text: "*"@ + stripped(it.title) + "*\n"@ + (match it.summary {
            Some(s) => s,
            None => seq![],
        }) + "\n"@ + it.url,
        thumbs: Some(
            ThumbsView {
                up: callback_for(date, position, FeedbackKind::Up),
                down: callback_for(date, position, FeedbackKind::Down),
            },
        ),
    }
}

/// The messages of a briefing: its head, then its items, whose positions are
/// counted through all sections.
pub open spec fn messages(b: BriefingView) -> Seq<MessageView> {
    seq![head_message(b)] + Seq::new(
        shown_items(b.sections).len(),
        |i: int| item_message(b.date, shown_items(b.sections)[i], i),
    )
}

/// The buttons for an item at a position.
pub fn thumbs_keyboard(date: &str, position: i64) -> (r: Thumbs)
    ensures
        r.up@ == callback_for(date@, position as int, FeedbackKind::Up),
        r.down@ == callback_for(date@, position as int, FeedbackKind::Down),
{
    Thumbs {
        up: callback_data(date, position, FeedbackKind::Up),
        down: callback_data(date, position, FeedbackKind::Down),
    }
}

/// Writes the head message.
fn head(b: &Briefing) -> (r: Message)
    ensures
        r@ == head_message(b@),
{
    let mut text = String::new();
    text.append("*Morning Briefing — ");
    text.append(&b.date);
    text.append("*\n");
    let ghost start = text@;
    let ghost all = b@.tldr;
    let mut i: usize = 0;
    assert(start + head_points(all.take(0)) =~= start);
    while i < b.tldr.len()
        invariant
            i <= b.tldr@.len(),
            all == views(b.tldr@),
            text@ == start + head_points(all.take(i as int)),
        decreases b.tldr.len() - i,
    {
        text.append("• ");
        text.append(&strip_md(&b.tldr[i]));
        text.append("\n");
        proof {
            assert(all.take(i + 1).drop_last() =~= all.take(i as int));
            assert(all.take(i + 1).last() == b.tldr@[i as int]@);
            assert(text@ =~= start + head_points(all.take(i + 1)));
        }
        i = i + 1;
    }
    assert(all.take(i as int) =~= all);
    Message { text, thumbs: None }
}

/// Writes the message about an item.
fn item_text(date: &str, it: &ContentItem, position: i64) -> (r: Message)
    ensures
        r@ == item_message(date@, it@, position as int),
{
    let mut text = String::new();
    text.append("*");
    text.append(&strip_md(&it.title));
    text.append("*\n");
    match &it.summary {
        Some(s) => {
            text.append(s);
        },
        None => {},
    }
    text.append("\n");
    text.append(&it.url);
    assert(text@ =~= item_message(date@, it@, position as int).text);
    Message { text, thumbs: Some(thumbs_keyboard(date, position)) }
}

/// Writes the messages of a briefing, in the order in which they are sent.
pub fn send_briefing(b: &Briefing) -> (r: Vec<Message>)
    requires
        shown_items(b@.sections).len() <= i64::MAX,
    ensures
        views(r@) == messages(b@),
{
    let shown = list_items(b);
    let ghost all = views(shown@);
    let mut out: Vec<Message> = Vec::new();
    out.push(head(b));
    let mut i: usize = 0;
    while i < shown.len()
        invariant
            i <= shown@.len(),
            all == views(shown@),
            all == shown_items(b@.sections),
            all.len() <= i64::MAX,
            out@.len() == i + 1,
            out@[0]@ == head_message(b@),
            forall|k: int| 0 < k <= i ==> (#[trigger] out@[k])@ == item_message(b@.date, all[k - 1], k - 1),
        decreases shown.len() - i,
    {
        out.push(item_text(&b.date, shown[i], i as i64));
        i = i + 1;
    }
    assert(views(out@) =~= messages(b@));
    out
}

/// A press on a button below the item at position `p` names the day of the
/// briefing and that position, where the store holds the item.
pub proof fn buttons_name_their_item(b: BriefingView, p: int)
    requires
        0 <= p < shown_items(b.sections).len() <= i64::MAX,
        forall|i: int| 0 <= i < b.date.len() ==> #[trigger] b.date[i] != ':',
    ensures
        messages(b)[p + 1].thumbs is Some,
        callback_in(messages(b)[p + 1].thumbs->0.up) == Some((b.date, p as i64, FeedbackKind::Up)),
        callback_in(messages(b)[p + 1].thumbs->0.down) == Some((b.date, p as i64, FeedbackKind::Down)),
        crate::store::places(b.sections)[p].position == p,
        crate::store::places(b.sections)[p].item_id == shown_items(b.sections)[p].id,
{
    callback_is_read_back(b.date, p as i64, FeedbackKind::Up);
    callback_is_read_back(b.date, p as i64, FeedbackKind::Down);
}

// ---------------------------------------------------------------------------
// The loop that takes in the feedback
// ---------------------------------------------------------------------------

/// A pressed button.
#[derive(Debug)]
pub struct CallbackQuery {
    pub id: String,
    pub data: Option<String>,
}

/// Something that happened in the chat.
#[derive(Debug)]
pub struct Update {
    pub update_id: i64,
    pub callback_query: Option<CallbackQuery>,
}

/// What follows from an update.
#[derive(Debug)]
pub enum UpdateStep {
    /// Nothing: no button was pressed.
    Skip,
    /// The press is answered; it says nothing.
    Answer { id: String },
    /// The feedback is recorded for the item at the position, if there is one,
    /// and the press is answered.
    Record { id: String, date: String, position: i64, kind: FeedbackKind },
}

/// Whether a step is what follows from an update.
pub open spec fn follows(u: Update, s: UpdateStep) -> bool {
    match u.callback_query {
        None => s is Skip,
        Some(q) => {
            let said = match q.data {
                Some(d) => callback_in(d@),
                None => None,
            };
            match said {
                Some((date, position, kind)) => s is Record && s->Record_id@ == q.id@ && s->Record_date@ == date
                    && s->position == position && s->kind == kind,
                None => s is Answer && s->Answer_id@ == q.id@,
            }
        },
    }
}

/// Finds out what follows from an update.
pub fn update_step(u: &Update) -> (r: UpdateStep)
    ensures
        follows(*u, r),
{
    match &u.callback_query {
        None => UpdateStep::Skip,
        Some(q) => {
            match &q.data {
                Some(d) => {
                    match parse_callback(d) {
                        Some((date, position, kind)) => UpdateStep::Record { id: q.id.clone(), date, position, kind },
                        None => UpdateStep::Answer { id: q.id.clone() },
                    }
                },
                None => UpdateStep::Answer { id: q.id.clone() },
            }
        },
    }
}

/// Where to go on once an update was taken in: behind it, so that no update is
/// taken in twice.
pub fn next_offset(u: &Update) -> (r: i64)
    requires
        u.update_id < i64::MAX,
    ensures
        r == u.update_id + 1,
{
    u.update_id + 1
}

/// A press is understood exactly where it says `fb`, a day, a position and the name of
/// a kind, between colons.
pub proof fn press_names_day_position_and_kind(data: Seq<char>, date: Seq<char>, n: i64, k: FeedbackKind)
    ensures
        callback_in(data) == Some((date, n, k)) <==> {
            let p = pieces(data, ':');
            &&& p.len() >= 4
            &&& p[0] == "fb"@
            &&& p[1] == date
            &&& parsed_integer(p[2]) == Some(n)
            &&& p[3] == kind_name(k)
        },
{
    let p = pieces(data, ':');
    if p.len() >= 4 {
        crate::feedback::kind_survives_its_name(k, p[3]);
    }
}

/// A press that is understood is recorded with what it says; any other press is
/// answered, so that the button comes to rest, and what is no press is passed over.
pub proof fn every_press_is_answered(u: Update, s: UpdateStep)
    requires
        follows(u, s),
    ensures
        s is Skip <==> u.callback_query is None,
        s is Record <==> u.callback_query is Some && u.callback_query->0.data is Some && callback_in(
            u.callback_query->0.data->0@,
        ) is Some,
        s is Record ==> callback_in(u.callback_query->0.data->0@) == Some((s->Record_date@, s->position, s->kind))
            && s->Record_id@ == u.callback_query->0.id@,
        s is Answer ==> s->Answer_id@ == u.callback_query->0.id@,
{
}

/// There is a message for the day, with each of its three things, and behind it one
/// for every item shown, in order, with its title, its summary and its link.
pub proof fn every_item_has_its_message(b: BriefingView, p: int, t: int)
    requires
        0 <= p < shown_items(b.sections).len(),
    ensures
        messages(b).len() == shown_items(b.sections).len() + 1,
        messages(b)[0].thumbs is None,
        has_part(messages(b)[0].text, b.date),
        0 <= t < b.tldr.len() ==> has_part(messages(b)[0].text, "• "@ + stripped(b.tldr[t]) + "\n"@),
        has_part(messages(b)[p + 1].text, stripped(shown_items(b.sections)[p].title)),
        shown_items(b.sections)[p].summary is Some ==> has_part(
            messages(b)[p + 1].text,
            shown_items(b.sections)[p].summary->0,
        ),
        has_part(messages(b)[p + 1].text, shown_items(b.sections)[p].url),
{
    let it = shown_items(b.sections)[p];
    let text = messages(b)[p + 1].text;
    let title = stripped(it.title);
    let summary = match it.summary {
        Some(s) => s,
        None => seq![],
    };
    part_stands_between(text, title, "*"@, "*\n"@ + summary + "\n"@ + it.url);
    assert(text =~= "*"@ + title + ("*\n"@ + summary + "\n"@ + it.url));
    part_stands_between(text, summary, "*"@ + title + "*\n"@, "\n"@ + it.url);
    assert(text =~= "*"@ + title + "*\n"@ + summary + ("\n"@ + it.url));
    part_stands_between(text, it.url, "*"@ + title + "*\n"@ + summary + "\n"@, seq![]);
    assert(text =~= "*"@ + title + "*\n"@ + summary + "\n"@ + it.url + seq![]);
    let head = messages(b)[0].text;
    let points = head_points(b.tldr);
    part_stands_between(head, b.date, "*Morning Briefing — "@, "*\n"@ + points);
    assert(head =~= "*Morning Briefing — "@ + b.date + ("*\n"@ + points));
    part_stands_between(head, points, "*Morning Briefing — "@ + b.date + "*\n"@, seq![]);
    assert(head =~= "*Morning Briefing — "@ + b.date + "*\n"@ + points + seq![]);
    if 0 <= t < b.tldr.len() {
        lemma_head_point(b.tldr, t);
        part_of_a_part(head, points, "• "@ + stripped(b.tldr[t]) + "\n"@);
    }
}

proof fn lemma_head_point(list: Seq<Seq<char>>, t: int)
    requires
        0 <= t < list.len(),
    ensures
        has_part(head_points(list), "• "@ + stripped(list[t]) + "\n"@),
    decreases list.len(),
{
    let all = head_points(list);
    let before = head_points(list.drop_last());
    let last = "• "@ + stripped(list.last()) + "\n"@;
    assert(all =~= before + last);
    if t == list.len() - 1 {
        part_stands_between(all, last, before, seq![]);
        assert(before + last + seq![] =~= all);
    } else {
        lemma_head_point(list.drop_last(), t);
        part_stands_between(all, before, seq![], last);
        assert(seq![] + before + last =~= all);
        part_of_a_part(all, before, "• "@ + stripped(list[t]) + "\n"@);
    }
}

} // verus!
