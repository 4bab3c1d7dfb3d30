//! Feedback: what the reader thinks of an item, and what it adds up to.

use crate::text::{distinct_texts, distinct_texts_are_those, push_distinct, same, views};
use vstd::prelude::*;

verus! {

/// The kinds of feedback.
#[derive(Clone, Copy, Debug, PartialEq, Eq, Structural)]
pub enum FeedbackKind {
    /// Explicitly good.
    Up,
    /// Explicitly bad.
    Down,
    /// More of this topic or source.
    More,
    /// Less of it.
    Less,
    /// The link was opened.
    Open,
}

/// The name of a kind.
pub open spec fn kind_name(k: FeedbackKind) -> Seq<char> {
    match k {
        FeedbackKind::Up => "up"@,
        FeedbackKind::Down => "down"@,
        FeedbackKind::More => "more"@,
        FeedbackKind::Less => "less"@,
        FeedbackKind::Open => "open"@,
    }
}

/// The kind of a name, if it has one.
pub open spec fn kind_of(s: Seq<char>) -> Option<FeedbackKind> {
    if s == "up"@ {
        Some(FeedbackKind::Up)
    } else if s == "down"@ {
        Some(FeedbackKind::Down)
    } else if s == "more"@ {
        Some(FeedbackKind::More)
    } else if s == "less"@ {
        Some(FeedbackKind::Less)
    } else if s == "open"@ {
        Some(FeedbackKind::Open)
    } else {
        None
    }
}

impl FeedbackKind {
    /// The name of the kind.
    pub fn as_str(&self) -> (r: &'static str)
        ensures
            r@ == kind_name(*self),
    {
        match self {
            FeedbackKind::Up => "up",
            FeedbackKind::Down => "down",
            FeedbackKind::More => "more",
            FeedbackKind::Less => "less",
            FeedbackKind::Open => "open",
        }
    }

    /// The kind with the given name.
    pub fn parse(s: &str) -> (r: Option<FeedbackKind>)
        ensures
            r == kind_of(s@),
    {
        if same(s, "up") {
            Some(FeedbackKind::Up)
        } else if same(s, "down") {
            Some(FeedbackKind::Down)
        } else if same(s, "more") {
            Some(FeedbackKind::More)
        } else if same(s, "less") {
            Some(FeedbackKind::Less)
        } else if same(s, "open") {
            Some(FeedbackKind::Open)
        } else {
            None
        }
    }
}

/// The names of the kinds differ.
pub proof fn kind_names_differ(a: FeedbackKind, b: FeedbackKind)
    requires
        a != b,
    ensures
        kind_name(a) != kind_name(b),
{
    reveal_strlit("up");
    reveal_strlit("down");
    reveal_strlit("more");
    reveal_strlit("less");
    reveal_strlit("open");
    assert("up"@.len() == 2);
    assert("down"@[0] == 'd' && "more"@[0] == 'm' && "less"@[0] == 'l' && "open"@[0] == 'o');
}

/// The name of a kind is read back as that kind, and only its name is read as it.
pub proof fn kind_survives_its_name(k: FeedbackKind, s: Seq<char>)
    ensures
        kind_of(kind_name(k)) == Some(k),
        kind_of(s) == Some(k) <==> s == kind_name(k),
{
    assert forall|other: FeedbackKind| other != k implies #[trigger] kind_name(other) != kind_name(k) by {
        kind_names_differ(other, k);
    }
    assert(kind_name(FeedbackKind::Up) == "up"@);
    assert(kind_name(FeedbackKind::Down) == "down"@);
    assert(kind_name(FeedbackKind::More) == "more"@);
    assert(kind_name(FeedbackKind::Less) == "less"@);
    assert(kind_name(FeedbackKind::Open) == "open"@);
}

/// What a feedback event says of its item, for learning.
#[derive(Clone, Copy, Debug, PartialEq, Eq, Structural)]
pub enum Signal {
    /// Liked: counts 1 in favour.
    Liked,
    /// Opened: counts 0.3 in favour.
    Opened,
    /// Disliked: counts 1 against.
    Disliked,
    /// Nothing: an unknown kind.
    Silent,
}

/// The signal of a kind, given by its name.
pub open spec fn signal(kind: Seq<char>) -> Signal {
    if kind == "up"@ || kind == "more"@ {
        Signal::Liked
    } else if kind == "open"@ {
        Signal::Opened
    } else if kind == "down"@ || kind == "less"@ {
        Signal::Disliked
    } else {
        Signal::Silent
    }
}

/// The signal of a kind, given by its name.
pub fn signal_of(kind: &str) -> (r: Signal)
    ensures
        r == signal(kind@),
{
    if same(kind, "up") || same(kind, "more") {
        Signal::Liked
    } else if same(kind, "open") {
        Signal::Opened
    } else if same(kind, "down") || same(kind, "less") {
        Signal::Disliked
    } else {
        Signal::Silent
    }
}

/// A feedback event with the source and the topics of its item.
#[derive(Debug)]
pub struct FeedbackMeta {
    pub source_id: String,
    pub topics: Vec<String>,
    pub kind: String,
}

/// What a feedback event is.
#[verifier::ext_equal]
pub struct EventView {
    pub source_id: Seq<char>,
    pub topics: Seq<Seq<char>>,
    pub kind: Seq<char>,
}

impl View for FeedbackMeta {
    type V = EventView;

    open spec fn view(&self) -> EventView {
        EventView { source_id: self.source_id@, topics: views(self.topics@), kind: self.kind@ }
    }
}

// ---------------------------------------------------------------------------
// The feedback on one briefing
// ---------------------------------------------------------------------------

/// How often each kind of feedback was given on a briefing.
#[derive(Clone, Copy, Debug, PartialEq, Eq, Structural)]
pub struct FeedbackCounts {
    pub up: i64,
    pub down: i64,
    pub more: i64,
    pub less: i64,
    pub open: i64,
}

impl Default for FeedbackCounts {
    fn default() -> (r: Self)
        ensures
            r == (FeedbackCounts { up: 0, down: 0, more: 0, less: 0, open: 0 }),
    {
        FeedbackCounts { up: 0, down: 0, more: 0, less: 0, open: 0 }
    }
}

/// A count of one kind, as the store gives it.
#[derive(Debug)]
pub struct KindCount {
    pub kind: String,
    pub n: i64,
}

/// The count in the last row of the given kind; 0 where there is none.
pub open spec fn count_in(rows: Seq<KindCount>, kind: Seq<char>) -> i64
    decreases rows.len(),
{
    if rows.len() == 0 {
        0
    } else if rows.last().kind@ == kind {
        rows.last().n
    } else {
        count_in(rows.drop_last(), kind)
    }
}

/// The counts of the known kinds.
pub open spec fn counts_of(rows: Seq<KindCount>) -> FeedbackCounts {
    FeedbackCounts {
        up: count_in(rows, "up"@),
        down: count_in(rows, "down"@),
        more: count_in(rows, "more"@),
        less: count_in(rows, "less"@),
        open: count_in(rows, "open"@),
    }
}

/// Gathers the counts of the known kinds; rows of other kinds are passed over.
pub fn feedback_counts(rows: &Vec<KindCount>) -> (r: FeedbackCounts)
    ensures
        r == counts_of(rows@),
        r == (FeedbackCounts {
            up: count_in(rows@, "up"@),
            down: count_in(rows@, "down"@),
            more: count_in(rows@, "more"@),
            less: count_in(rows@, "less"@),
            open: count_in(rows@, "open"@),
        }),
{
    let mut c = FeedbackCounts { up: 0, down: 0, more: 0, less: 0, open: 0 };
    let mut i: usize = 0;
    while i < rows.len()
        invariant
            i <= rows@.len(),
            c == (FeedbackCounts {
                up: count_in(rows@.take(i as int), "up"@),
                down: count_in(rows@.take(i as int), "down"@),
                more: count_in(rows@.take(i as int), "more"@),
                less: count_in(rows@.take(i as int), "less"@),
                open: count_in(rows@.take(i as int), "open"@),
            }),
        decreases rows.len() - i,
    {
        proof {
            assert(rows@.take(i + 1).drop_last() =~= rows@.take(i as int));
            assert(rows@.take(i + 1).last() == rows@[i as int]);
            let k = rows@[i as int].kind@;
            kind_survives_its_name(FeedbackKind::Up, k);
            kind_survives_its_name(FeedbackKind::Down, k);
            kind_survives_its_name(FeedbackKind::More, k);
            kind_survives_its_name(FeedbackKind::Less, k);
            kind_survives_its_name(FeedbackKind::Open, k);
        }
        let n: i64 = rows[i].n;
        match FeedbackKind::parse(&rows[i].kind) {
            Some(FeedbackKind::Up) => {
                c.up = n;
            },
            Some(FeedbackKind::Down) => {
                c.down = n;
            },
            Some(FeedbackKind::More) => {
                c.more = n;
            },
            Some(FeedbackKind::Less) => {
                c.less = n;
            },
            Some(FeedbackKind::Open) => {
                c.open = n;
            },
            None => {},
        }
        i = i + 1;
    }
    assert(rows@.take(i as int) =~= rows@);
    c
}

/// What the counts say: how often the briefing was liked, opened and disliked.
/// The share of what speaks for it, with an opening counted 0.3, is its
/// behaviour score.
#[derive(Clone, Copy, Debug, PartialEq, Eq, Structural)]
pub struct Behavior {
    pub likes: i128,
    pub opens: i128,
    pub dislikes: i128,
}

/// What speaks for and against a briefing; nothing, which makes its score
/// neutral, where there is no feedback.
pub fn behavior(f: &FeedbackCounts) -> (r: Option<Behavior>)
    ensures
        match r {
            Some(b) => b.likes == f.up + f.more && b.opens == f.open && b.dislikes == f.down + f.less && (b.likes
                != 0 || b.opens != 0 || b.dislikes != 0),
            None => f.up + f.more == 0 && f.open == 0 && f.down + f.less == 0,
        },
{
    let b = Behavior {
        likes: f.up as i128 + f.more as i128,
        opens: f.open as i128,
        dislikes: f.down as i128 + f.less as i128,
    };
    if b.likes == 0 && b.opens == 0 && b.dislikes == 0 {
        None
    } else {
        Some(b)
    }
}

// ---------------------------------------------------------------------------
// The feedback on sources and topics
// ---------------------------------------------------------------------------

/// The evidence on a source or a topic: how often items of it were liked,
/// opened and disliked. In favour of it speak the likes and 0.3 for each opening.
#[derive(Clone, Copy, Debug, PartialEq, Eq, Structural)]
pub struct ArmStats {
    pub likes: u128,
    pub opens: u128,
    pub dislikes: u128,
}

/// A source or a topic with its evidence.
#[derive(Debug)]
pub struct Arm {
    pub name: String,
    pub stats: ArmStats,
}

/// How often `t` stands in a list.
pub open spec fn occurrences(list: Seq<Seq<char>>, t: Seq<char>) -> nat
    decreases list.len(),
{
    if list.len() == 0 {
        0
    } else {
        occurrences(list.drop_last(), t) + if list.last() == t {
            1nat
        } else {
            0nat
        }
    }
}

/// Which names an event has: its source, or its topics.
pub open spec fn names_of(e: EventView, topics: bool) -> Seq<Seq<char>> {
    if topics {
        e.topics
    } else {
        seq![e.source_id]
    }
}

/// How many events with the given signal name the source or the topic; an event
/// counts as often as it names it.
pub open spec fn evidence(events: Seq<EventView>, topics: bool, name: Seq<char>, s: Signal) -> nat
    decreases events.len(),
{
    if events.len() == 0 {
        0
    } else {
        evidence(events.drop_last(), topics, name, s) + if signal(events.last().kind) == s {
            occurrences(names_of(events.last(), topics), name)
        } else {
            0
        }
    }
}

/// The names that the events have, one after the other.
pub open spec fn all_names(events: Seq<EventView>, topics: bool) -> Seq<Seq<char>>
    decreases events.len(),
{
    if events.len() == 0 {
        seq![]
    } else {
        all_names(events.drop_last(), topics) + names_of(events.last(), topics)
    }
}

/// Whether `stats` is the evidence that the events hold on a name.
pub open spec fn is_evidence(stats: ArmStats, events: Seq<EventView>, topics: bool, name: Seq<char>) -> bool {
    &&& stats.likes == evidence(events, topics, name, Signal::Liked)
    &&& stats.opens == evidence(events, topics, name, Signal::Opened)
    &&& stats.dislikes == evidence(events, topics, name, Signal::Disliked)
}

/// Whether `arms` is the evidence that the events hold: one arm for each name,
/// in the order in which the names come up.
pub open spec fn are_arms(arms: Seq<Arm>, events: Seq<EventView>, topics: bool) -> bool {
    &&& Seq::new(arms.len(), |i: int| arms[i].name@) == distinct_texts(all_names(events, topics))
    &&& forall|i: int| 0 <= i < arms.len() ==> is_evidence((#[trigger] arms[i]).stats, events, topics, arms[i].name@)
}

/// Whether two lists of arms have the same names and the same evidence, in the same order.
pub open spec fn same_arms(a: Seq<Arm>, b: Seq<Arm>) -> bool {
    &&& a.len() == b.len()
    &&& forall|i: int| 0 <= i < a.len() ==> (#[trigger] a[i]).name@ == b[i].name@ && a[i].stats == b[i].stats
}

/// The same feedback gives the same arms in the same order: samples that are
/// drawn for one arm after the other by the same seed are drawn for the same arms.
pub proof fn same_feedback_gives_same_arms(a: Seq<Arm>, b: Seq<Arm>, events: Seq<EventView>, topics: bool)
    requires
        are_arms(a, events, topics),
        are_arms(b, events, topics),
    ensures
        same_arms(a, b),
{
    let names = Seq::new(a.len(), |i: int| a[i].name@);
    let others = Seq::new(b.len(), |i: int| b[i].name@);
    assert(names == others);
    assert forall|i: int| 0 <= i < a.len() implies (#[trigger] a[i]).name@ == b[i].name@ && a[i].stats == b[i].stats by {
        assert(names[i] == others[i]);
        assert(is_evidence(b[i].stats, events, topics, b[i].name@));
    }
}

/// Counts how often a text stands in a list.
fn count_text(list: &Vec<String>, t: &str) -> (r: u128)
    ensures
        r == occurrences(views(list@), t@),
        r <= usize::MAX,
{
    let ghost all = views(list@);
    let mut n: u128 = 0;
    let mut i: usize = 0;
    while i < list.len()
        invariant
            i <= list@.len(),
            all == views(list@),
            n <= i,
            n == occurrences(all.take(i as int), t@),
        decreases list.len() - i,
    {
        proof {
            assert(all.take(i + 1).drop_last() =~= all.take(i as int));
            assert(all.take(i + 1).last() == list@[i as int]@);
        }
        if same(&list[i], t) {
            n = n + 1;
        }
        i = i + 1;
    }
    assert(all.take(i as int) =~= all);
    n
}

/// Gathers the evidence on one name.
pub fn evidence_on(rows: &Vec<FeedbackMeta>, topics: bool, name: &str) -> (r: ArmStats)
    ensures
        is_evidence(r, views(rows@), topics, name@),
{
    let ghost all = views(rows@);
    let mut stats = ArmStats { likes: 0, opens: 0, dislikes: 0 };
    let mut i: usize = 0;
    while i < rows.len()
        invariant
            i <= rows@.len(),
            all == views(rows@),
            is_evidence(stats, all.take(i as int), topics, name@),
            stats.likes <= i * 0xffff_ffff_ffff_ffff,
            stats.opens <= i * 0xffff_ffff_ffff_ffff,
            stats.dislikes <= i * 0xffff_ffff_ffff_ffff,
        decreases rows.len() - i,
    {
        let n: u128 = if topics {
            count_text(&rows[i].topics, name)
        } else if same(&rows[i].source_id, name) {
            1
        } else {
            0
        };
        proof {
            assert(all.take(i + 1).drop_last() =~= all.take(i as int));
            assert(all.take(i + 1).last() == rows@[i as int]@);
            if !topics {
                let one = seq![rows@[i as int]@.source_id];
                assert(one.drop_last() =~= seq![]);
                assert(occurrences(one.drop_last(), name@) == 0);
            }
            assert(n == occurrences(names_of(rows@[i as int]@, topics), name@));
        }
        match signal_of(&rows[i].kind) {
            Signal::Liked => {
                stats.likes = stats.likes + n;
            },
            Signal::Opened => {
                stats.opens = stats.opens + n;
            },
            Signal::Disliked => {
                stats.dislikes = stats.dislikes + n;
            },
            Signal::Silent => {},
        }
        i = i + 1;
    }
    assert(all.take(i as int) =~= all);
    stats
}

/// Names behind names: the repetitions fall out one after the other.
pub proof fn distinct_texts_grow(list: Seq<Seq<char>>, t: Seq<char>)
    ensures
        distinct_texts(list.push(t)) == if distinct_texts(list).contains(t) {
            distinct_texts(list)
        } else {
            distinct_texts(list).push(t)
        },
{
    assert(list.push(t).drop_last() =~= list);
}

/// Lists the names that the events have, each once.
pub fn list_names(rows: &Vec<FeedbackMeta>, topics: bool) -> (r: Vec<String>)
    ensures
        views(r@) == distinct_texts(all_names(views(rows@), topics)),
{
    let ghost all = views(rows@);
    let mut names: Vec<String> = Vec::new();
    let mut i: usize = 0;
    assert(views(names@) =~= seq![]);
    while i < rows.len()
        invariant
            i <= rows@.len(),
            all == views(rows@),
            views(names@) == distinct_texts(all_names(all.take(i as int), topics)),
        decreases rows.len() - i,
    {
        let ghost before = all_names(all.take(i as int), topics);
        let ghost here = names_of(rows@[i as int]@, topics);
        proof {
            assert(all.take(i + 1).drop_last() =~= all.take(i as int));
            assert(all.take(i + 1).last() == rows@[i as int]@);
        }
        if topics {
            let mut k: usize = 0;
            assert(before + here.take(0) =~= before);
            while k < rows[i].topics.len()
                invariant
                    i < rows@.len(),
                    here == views(rows@[i as int].topics@),
                    k <= rows@[i as int].topics@.len(),
                    views(names@) == distinct_texts(before + here.take(k as int)),
                decreases rows@[i as int].topics@.len() - k,
            {
                let added = push_distinct(&mut names, &rows[i].topics[k]);
                proof {
                    assert(before + here.take(k + 1) =~= (before + here.take(k as int)).push(here[k as int]));
                    distinct_texts_grow(before + here.take(k as int), here[k as int]);
                }
                k = k + 1;
            }
            assert(here.take(k as int) =~= here);
        } else {
            let added = push_distinct(&mut names, &rows[i].source_id);
            proof {
                assert(before + here =~= before.push(here[0]));
                distinct_texts_grow(before, here[0]);
            }
        }
        i = i + 1;
    }
    assert(all.take(i as int) =~= all);
    names
}

/// Gathers the evidence on all sources, or on all topics.
fn gather(rows: &Vec<FeedbackMeta>, topics: bool) -> (r: Vec<Arm>)
    ensures
        are_arms(r@, views(rows@), topics),
{
    let names = list_names(rows, topics);
    let mut arms: Vec<Arm> = Vec::new();
    let mut i: usize = 0;
    while i < names.len()
        invariant
            i <= names@.len(),
            arms@.len() == i,
            forall|k: int|
                0 <= k < i ==> (#[trigger] arms@[k]).name@ == names@[k]@ && is_evidence(
                    arms@[k].stats,
                    views(rows@),
                    topics,
                    arms@[k].name@,
                ),
        decreases names.len() - i,
    {
        let stats = evidence_on(rows, topics, &names[i]);
        arms.push(Arm { name: names[i].clone(), stats });
        i = i + 1;
    }
    assert(Seq::new(arms@.len(), |k: int| arms@[k].name@) =~= views(names@));
    arms
}

/// Gathers the feedback by source and by topic.
pub fn aggregate(rows: &Vec<FeedbackMeta>) -> (r: (Vec<Arm>, Vec<Arm>))
    ensures
        are_arms(r.0@, views(rows@), false),
        are_arms(r.1@, views(rows@), true),
{
    (gather(rows, false), gather(rows, true))
}

// ---------------------------------------------------------------------------
// What feedback says
// ---------------------------------------------------------------------------

/// What the kinds say: a thumb up and the wish for more speak for an item, an
/// opening does so less, a thumb down and the wish for less speak against it. What is
/// no kind says nothing.
pub proof fn kinds_speak_for_or_against(k: FeedbackKind, s: Seq<char>)
    ensures
        k == FeedbackKind::Up || k == FeedbackKind::More <==> signal(kind_name(k)) == Signal::Liked,
        k == FeedbackKind::Open <==> signal(kind_name(k)) == Signal::Opened,
        k == FeedbackKind::Down || k == FeedbackKind::Less <==> signal(kind_name(k)) == Signal::Disliked,
        kind_of(s) is None <==> signal(s) == Signal::Silent,
{
    assert forall|x: FeedbackKind, y: FeedbackKind| x != y implies #[trigger] kind_name(x) != #[trigger] kind_name(
        y,
    ) by {
        kind_names_differ(x, y);
    }
    assert(kind_name(FeedbackKind::Up) == "up"@);
    assert(kind_name(FeedbackKind::Down) == "down"@);
    assert(kind_name(FeedbackKind::More) == "more"@);
    assert(kind_name(FeedbackKind::Less) == "less"@);
    assert(kind_name(FeedbackKind::Open) == "open"@);
}

/// The evidence on a source is the number of events on its items with that signal.
pub proof fn evidence_counts_the_events(events: Seq<EventView>, source: Seq<char>, s: Signal)
    ensures
        evidence(events, false, source, s) == events.filter(
            |e: EventView| e.source_id == source && signal(e.kind) == s,
        ).len(),
    decreases events.len(),
{
    reveal(Seq::filter);
    if events.len() > 0 {
        evidence_counts_the_events(events.drop_last(), source, s);
        let one = names_of(events.last(), false);
        assert(one.drop_last() =~= Seq::<Seq<char>>::empty());
        assert(occurrences(one.drop_last(), source) == 0);
    }
}

/// The evidence on a topic adds up over the events: each counts as often as its item
/// has the topic, and only towards its own signal.
pub proof fn evidence_adds_up(a: Seq<EventView>, b: Seq<EventView>, e: EventView, topics: bool, name: Seq<char>, s: Signal)
    ensures
        evidence(a + b, topics, name, s) == evidence(a, topics, name, s) + evidence(b, topics, name, s),
        evidence(seq![e], true, name, s) == if signal(e.kind) == s {
            e.topics.filter(|t: Seq<char>| t == name).len()
        } else {
            0
        },
    decreases b.len(),
{
    let one = seq![e];
    assert(one.drop_last() =~= Seq::<EventView>::empty());
    assert(evidence(one.drop_last(), true, name, s) == 0);
    lemma_occurrences(e.topics, name);
    if b.len() == 0 {
        assert(a + b =~= a);
    } else {
        evidence_adds_up(a, b.drop_last(), e, topics, name, s);
        assert((a + b).drop_last() =~= a + b.drop_last());
    }
}

proof fn lemma_occurrences(list: Seq<Seq<char>>, t: Seq<char>)
    ensures
        occurrences(list, t) == list.filter(|x: Seq<char>| x == t).len(),
    decreases list.len(),
{
    reveal(Seq::filter);
    if list.len() > 0 {
        lemma_occurrences(list.drop_last(), t);
    }
}

/// Every source, and every topic, that an event names has one arm, and nothing else
/// has one; the arm counts what speaks for it and against it.
pub proof fn every_name_has_its_arm(arms: Seq<Arm>, events: Seq<EventView>, topics: bool)
    requires
        are_arms(arms, events, topics),
    ensures
        forall|i: int, j: int| 0 <= i < j < arms.len() ==> (#[trigger] arms[i]).name@ != (#[trigger] arms[j]).name@,
        forall|k: int|
            0 <= k < events.len() && !topics ==> exists|i: int|
                0 <= i < arms.len() && (#[trigger] arms[i]).name@ == (#[trigger] events[k]).source_id,
        forall|k: int, m: int|
            0 <= k < events.len() && topics && 0 <= m < events[k].topics.len() ==> exists|i: int|
                0 <= i < arms.len() && (#[trigger] arms[i]).name@ == #[trigger] events[k].topics[m],
        forall|i: int|
            0 <= i < arms.len() && !topics ==> exists|k: int|
                0 <= k < events.len() && (#[trigger] events[k]).source_id == (#[trigger] arms[i]).name@,
        forall|i: int|
            0 <= i < arms.len() ==> (#[trigger] arms[i]).stats.likes == evidence(
                events,
                topics,
                arms[i].name@,
                Signal::Liked,
            ) && arms[i].stats.opens == evidence(events, topics, arms[i].name@, Signal::Opened)
                && arms[i].stats.dislikes == evidence(events, topics, arms[i].name@, Signal::Disliked),
{
    let names = Seq::new(arms.len(), |i: int| arms[i].name@);
    let all = all_names(events, topics);
    distinct_texts_are_those(all);
    assert forall|i: int, j: int| 0 <= i < j < arms.len() implies (#[trigger] arms[i]).name@ != (
    #[trigger] arms[j]).name@ by {
        assert(names[i] != names[j]);
    }
    assert forall|k: int| 0 <= k < events.len() && !topics implies exists|i: int|
        0 <= i < arms.len() && (#[trigger] arms[i]).name@ == (#[trigger] events[k]).source_id by {
        assert(names_of(events[k], topics)[0] == events[k].source_id);
        names_are_listed(events, topics, k, 0);
        let i = choose|i: int| 0 <= i < names.len() && names[i] == events[k].source_id;
        assert(arms[i].name@ == events[k].source_id);
    }
    assert forall|k: int, m: int| 0 <= k < events.len() && topics && 0 <= m < events[k].topics.len() implies exists|
        i: int,
    |
        0 <= i < arms.len() && (#[trigger] arms[i]).name@ == #[trigger] events[k].topics[m] by {
        names_are_listed(events, topics, k, m);
        let i = choose|i: int| 0 <= i < names.len() && names[i] == events[k].topics[m];
        assert(arms[i].name@ == events[k].topics[m]);
    }
    assert forall|i: int| 0 <= i < arms.len() && !topics implies exists|k: int|
        0 <= k < events.len() && (#[trigger] events[k]).source_id == (#[trigger] arms[i]).name@ by {
        assert(names.contains(names[i]));
        assert(all.contains(names[i]));
        let (k, m) = listed_name_is_given(events, false, names[i]);
        assert(events[k].source_id == names[i]);
    }
    assert forall|i: int| 0 <= i < arms.len() implies (#[trigger] arms[i]).stats.likes == evidence(
        events,
        topics,
        arms[i].name@,
        Signal::Liked,
    ) && arms[i].stats.opens == evidence(events, topics, arms[i].name@, Signal::Opened) && arms[i].stats.dislikes
        == evidence(events, topics, arms[i].name@, Signal::Disliked) by {
        assert(is_evidence(arms[i].stats, events, topics, arms[i].name@));
    }
}

/// Each name that an event gives is listed.
pub proof fn names_are_listed(events: Seq<EventView>, topics: bool, k: int, m: int)
    requires
        0 <= k < events.len(),
        0 <= m < names_of(events[k], topics).len(),
    ensures
        all_names(events, topics).contains(names_of(events[k], topics)[m]),
    decreases events.len(),
{
    let before = all_names(events.drop_last(), topics);
    let all = all_names(events, topics);
    if k < events.len() - 1 {
        names_are_listed(events.drop_last(), topics, k, m);
        let i = choose|i: int| 0 <= i < before.len() && before[i] == names_of(events[k], topics)[m];
        assert(all[i] == before[i]);
    } else {
        assert(all[before.len() + m] == names_of(events[k], topics)[m]);
    }
}

/// A listed name is given by an event.
pub proof fn listed_name_is_given(events: Seq<EventView>, topics: bool, t: Seq<char>) -> (r: (int, int))
    requires
        all_names(events, topics).contains(t),
    ensures
        0 <= r.0 < events.len(),
        0 <= r.1 < names_of(events[r.0], topics).len(),
        names_of(events[r.0], topics)[r.1] == t,
    decreases events.len(),
{
    let before = all_names(events.drop_last(), topics);
    let all = all_names(events, topics);
    let i = choose|i: int| 0 <= i < all.len() && all[i] == t;
    if i < before.len() {
        assert(before[i] == t);
        listed_name_is_given(events.drop_last(), topics, t)
    } else {
        (events.len() - 1, i - before.len())
    }
}

/// The count of a kind stands in its last row; where it has none, it is zero.
pub proof fn count_stands_in_the_last_row(rows: Seq<KindCount>, kind: Seq<char>, k: int)
    requires
        forall|j: int| k < j < rows.len() ==> (#[trigger] rows[j]).kind@ != kind,
        -1 <= k < rows.len(),
        k >= 0 ==> rows[k].kind@ == kind,
    ensures
        count_in(rows, kind) == if k >= 0 {
            rows[k].n
        } else {
            0
        },
    decreases rows.len(),
{
    if rows.len() > 0 && k < rows.len() - 1 {
        assert(rows[rows.len() - 1].kind@ != kind);
        count_stands_in_the_last_row(rows.drop_last(), kind, k);
    }
}

/// The arm of a topic is that of a topic of some event.
pub proof fn arm_of_a_topic_is_named(arms: Seq<Arm>, events: Seq<EventView>, i: int) -> (r: (int, int))
    requires
        are_arms(arms, events, true),
        0 <= i < arms.len(),
    ensures
        0 <= r.0 < events.len(),
        0 <= r.1 < events[r.0].topics.len(),
        events[r.0].topics[r.1] == arms[i].name@,
{
    let names = Seq::new(arms.len(), |i: int| arms[i].name@);
    let all = all_names(events, true);
    distinct_texts_are_those(all);
    assert(names.contains(names[i]));
    assert(all.contains(names[i]));
    listed_name_is_given(events, true, names[i])
}

/// Each kind is counted by its own rows, and rows of no kind count for none.
pub proof fn kinds_are_counted_apart(rows: Seq<KindCount>, k: FeedbackKind, row: KindCount)
    requires
        row.kind@ == kind_name(k),
    ensures
        counts_of(rows.push(row)) == match k {
            FeedbackKind::Up => (FeedbackCounts { up: row.n, ..counts_of(rows) }),
            FeedbackKind::Down => (FeedbackCounts { down: row.n, ..counts_of(rows) }),
            FeedbackKind::More => (FeedbackCounts { more: row.n, ..counts_of(rows) }),
            FeedbackKind::Less => (FeedbackCounts { less: row.n, ..counts_of(rows) }),
            FeedbackKind::Open => (FeedbackCounts { open: row.n, ..counts_of(rows) }),
        },
        counts_of(Seq::empty()) == (FeedbackCounts { up: 0, down: 0, more: 0, less: 0, open: 0 }),
{
    assert(rows.push(row).drop_last() =~= rows);
    assert forall|x: FeedbackKind, y: FeedbackKind| x != y implies #[trigger] kind_name(x) != #[trigger] kind_name(
        y,
    ) by {
        kind_names_differ(x, y);
    }
    assert(kind_name(FeedbackKind::Up) == "up"@);
    assert(kind_name(FeedbackKind::Down) == "down"@);
    assert(kind_name(FeedbackKind::More) == "more"@);
    assert(kind_name(FeedbackKind::Less) == "less"@);
    assert(kind_name(FeedbackKind::Open) == "open"@);
}

} // verus!
