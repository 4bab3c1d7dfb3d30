//! The learned weights of the sources and topics.

use crate::score::Score;
use crate::text::{chars_of, same, views};
use vstd::prelude::*;

verus! {

/// The neutral weight, 1.0, by its place among the doubles.
pub const NEUTRAL_WEIGHT: i64 = 0x3ff0_0000_0000_0000;

/// Whether `a` comes before `b` in the order of texts, by code points.
pub open spec fn text_before(a: Seq<char>, b: Seq<char>) -> bool
    decreases a.len(),
{
    if b.len() == 0 {
        false
    } else if a.len() == 0 {
        true
    } else if a[0] != b[0] {
        a[0] < b[0]
    } else {
        text_before(a.drop_first(), b.drop_first())
    }
}

/// How two texts stand to each other.
#[derive(Clone, Copy, Debug, PartialEq, Eq, Structural)]
pub enum TextOrder {
    Before,
    Same,
    Behind,
}

/// Of two texts one comes before the other, or they are the same.
pub proof fn texts_are_ordered(a: Seq<char>, b: Seq<char>)
    ensures
        text_before(a, b) || text_before(b, a) || a == b,
        !(text_before(a, b) && text_before(b, a)),
        !text_before(a, a),
    decreases a.len(),
{
    if a.len() > 0 && b.len() > 0 && a[0] == b[0] {
        texts_are_ordered(a.drop_first(), b.drop_first());
        if a.drop_first() == b.drop_first() {
            assert(a =~= seq![a[0]] + a.drop_first());
            assert(b =~= seq![b[0]] + b.drop_first());
        }
    } else if a.len() == 0 && b.len() == 0 {
        assert(a =~= b);
    }
    if a.len() > 0 {
        texts_are_ordered(a.drop_first(), a.drop_first());
    }
}

/// The order of texts is transitive.
pub proof fn text_order_is_transitive(a: Seq<char>, b: Seq<char>, c: Seq<char>)
    requires
        text_before(a, b),
        text_before(b, c),
    ensures
        text_before(a, c),
    decreases a.len(),
{
    if a.len() > 0 && b.len() > 0 && c.len() > 0 && a[0] == b[0] && b[0] == c[0] {
        text_order_is_transitive(a.drop_first(), b.drop_first(), c.drop_first());
    }
}

/// Finds out how two texts stand to each other.
pub fn text_order(a: &str, b: &str) -> (r: TextOrder)
    ensures
        r == if a@ == b@ {
            TextOrder::Same
        } else if text_before(a@, b@) {
            TextOrder::Before
        } else {
            TextOrder::Behind
        },
{
    let x = chars_of(a);
    let y = chars_of(b);
    let mut i: usize = 0;
    assert(x@.skip(0) =~= x@ && y@.skip(0) =~= y@);
    while i < x.len() && i < y.len() && x[i] == y[i]
        invariant
            i <= x@.len(),
            i <= y@.len(),
            x@ == a@,
            y@ == b@,
            text_before(a@, b@) == text_before(x@.skip(i as int), y@.skip(i as int)),
            x@.take(i as int) == y@.take(i as int),
        decreases x.len() - i,
    {
        assert(x@.skip(i as int).drop_first() =~= x@.skip(i + 1));
        assert(y@.skip(i as int).drop_first() =~= y@.skip(i + 1));
        assert(x@.take(i + 1) =~= x@.take(i as int).push(x@[i as int]));
        assert(y@.take(i + 1) =~= y@.take(i as int).push(y@[i as int]));
        i = i + 1;
    }
    if i == x.len() {
        if i == y.len() {
            assert(x@.take(i as int) =~= x@ && y@.take(i as int) =~= y@);
            return TextOrder::Same;
        }
        return TextOrder::Before;
    }
    if i == y.len() {
        return TextOrder::Behind;
    }
    assert(x@.skip(i as int)[0] == x@[i as int] && y@.skip(i as int)[0] == y@[i as int]);
    if x[i] < y[i] {
        TextOrder::Before
    } else {
        TextOrder::Behind
    }
}

/// The weight of one source or topic.
#[derive(Debug)]
pub struct Weight {
    pub name: String,
    pub value: Score,
}

impl Clone for Weight {
    fn clone(&self) -> (r: Self)
        ensures
            r == *self,
    {
        Weight { name: self.name.clone(), value: self.value }
    }
}

/// The weight of a name among the entries from the place `i` on.
pub open spec fn lookup_from(entries: Seq<Weight>, name: Seq<char>, i: int) -> Option<Score>
    decreases entries.len() - i,
{
    if i < 0 || i >= entries.len() {
        None
    } else if entries[i].name@ == name {
        Some(entries[i].value)
    } else {
        lookup_from(entries, name, i + 1)
    }
}

/// Weights by name.
#[derive(Debug)]
pub struct WeightTable {
    pub entries: Vec<Weight>,
}

impl WeightTable {
    /// Whether the names stand in their order, none twice.
    pub open spec fn sorted(&self) -> bool {
        forall|i: int, j: int|
            0 <= i < j < self.entries@.len() ==> text_before(
                (#[trigger] self.entries@[i]).name@,
                (#[trigger] self.entries@[j]).name@,
            )
    }

    /// The weight of a name, if it has one.
    pub open spec fn weight(&self, name: Seq<char>) -> Option<Score> {
        lookup_from(self.entries@, name, 0)
    }

    /// A table without entries.
    pub fn new() -> (r: WeightTable)
        ensures
            r.sorted(),
            r.entries@.len() == 0,
            forall|n: Seq<char>| #[trigger] r.weight(n) is None,
    {
        WeightTable { entries: Vec::new() }
    }

    /// The weight of a name, if it has one.
    pub fn get(&self, name: &str) -> (r: Option<Score>)
        ensures
            r == self.weight(name@),
    {
        let mut i: usize = 0;
        while i < self.entries.len()
            invariant
                i <= self.entries@.len(),
                self.weight(name@) == lookup_from(self.entries@, name@, i as int),
            decreases self.entries.len() - i,
        {
            if same(&self.entries[i].name, name) {
                return Some(self.entries[i].value);
            }
            i = i + 1;
        }
        None
    }

    /// Gives a name a weight, in place of the one that it had.
    pub fn insert(&mut self, name: &str, value: Score)
        ensures
            old(self).sorted() ==> final(self).sorted(),
            forall|n: Seq<char>|
                #[trigger] final(self).weight(n) == if n == name@ {
                    Some(value)
                } else {
                    old(self).weight(n)
                },
    {
        let ghost before = self.entries@;
        let mut p: usize = 0;
        while p < self.entries.len() && text_order(&self.entries[p].name, name) == TextOrder::Before
            invariant
                p <= self.entries@.len(),
                self.entries@ == before,
                forall|i: int| 0 <= i < p ==> text_before((#[trigger] before[i]).name@, name@),
                forall|i: int| 0 <= i < p ==> (#[trigger] before[i]).name@ != name@,
            decreases self.entries.len() - p,
        {
            p = p + 1;
        }
        if p < self.entries.len() && same(&self.entries[p].name, name) {
            self.entries.set(p, Weight { name: name.to_string(), value });
            proof {
                lemma_replaced(before, self.entries@, p as int);
                if old(self).sorted() {
                    assert forall|i: int, j: int| 0 <= i < j < self.entries@.len() implies text_before(
                        (#[trigger] self.entries@[i]).name@,
                        (#[trigger] self.entries@[j]).name@,
                    ) by {
                        assert(text_before(before[i].name@, before[j].name@));
                    }
                }
            }
        } else {
            self.entries.insert(p, Weight { name: name.to_string(), value });
            proof {
                let x = self.entries@[p as int];
                lemma_inserted(before, x, p as int);
                if old(self).sorted() {
                    lemma_sorted_insert(before, x, p as int);
                }
            }
        }
    }
}

impl Clone for WeightTable {
    fn clone(&self) -> (r: Self)
        ensures
            r.entries@ == self.entries@,
    {
        let mut entries: Vec<Weight> = Vec::new();
        let mut i: usize = 0;
        while i < self.entries.len()
            invariant
                i <= self.entries@.len(),
                entries@ == self.entries@.take(i as int),
            decreases self.entries.len() - i,
        {
            entries.push(self.entries[i].clone());
            assert(self.entries@.take(i + 1) =~= self.entries@.take(i as int).push(self.entries@[i as int]));
            i = i + 1;
        }
        assert(entries@ =~= self.entries@);
        WeightTable { entries }
    }
}

/// Entries with other names are passed over.
proof fn lemma_passed_over(entries: Seq<Weight>, name: Seq<char>, i: int, p: int)
    requires
        0 <= i <= p <= entries.len(),
        forall|k: int| i <= k < p ==> (#[trigger] entries[k]).name@ != name,
    ensures
        lookup_from(entries, name, i) == lookup_from(entries, name, p),
    decreases p - i,
{
    if i < p {
        lemma_passed_over(entries, name, i + 1, p);
    }
}

/// Entries that agree behind a place give the same weights there.
proof fn lemma_agree_behind(a: Seq<Weight>, b: Seq<Weight>, name: Seq<char>, i: int, d: int)
    requires
        0 <= i <= a.len(),
        b.len() == a.len() + d,
        0 <= i + d,
        forall|k: int| i <= k < a.len() ==> b[k + d] == #[trigger] a[k],
    ensures
        lookup_from(a, name, i) == lookup_from(b, name, i + d),
    decreases a.len() - i,
{
    if i < a.len() {
        assert(b[i + d] == a[i]);
        lemma_agree_behind(a, b, name, i + 1, d);
    }
}

/// Entries that agree up to a place, and from there on find the same, find the same.
proof fn lemma_agree_before(a: Seq<Weight>, b: Seq<Weight>, name: Seq<char>, i: int, p: int)
    requires
        0 <= i <= p <= a.len(),
        p <= b.len(),
        forall|k: int| i <= k < p ==> b[k] == #[trigger] a[k],
        lookup_from(a, name, p) == lookup_from(b, name, p),
    ensures
        lookup_from(a, name, i) == lookup_from(b, name, i),
    decreases p - i,
{
    if i < p {
        assert(b[i] == a[i]);
        lemma_agree_before(a, b, name, i + 1, p);
    }
}

/// What is found when the entry at `p` got another value, its name being the first of its kind.
proof fn lemma_replaced(a: Seq<Weight>, b: Seq<Weight>, p: int)
    requires
        0 <= p < a.len(),
        b == a.update(p, b[p]),
        b[p].name@ == a[p].name@,
        forall|k: int| 0 <= k < p ==> (#[trigger] a[k]).name@ != a[p].name@,
    ensures
        forall|n: Seq<char>|
            #[trigger] lookup_from(b, n, 0) == if n == a[p].name@ {
                Some(b[p].value)
            } else {
                lookup_from(a, n, 0)
            },
{
    assert forall|n: Seq<char>|
        #[trigger] lookup_from(b, n, 0) == if n == a[p].name@ {
            Some(b[p].value)
        } else {
            lookup_from(a, n, 0)
        } by {
        if n == a[p].name@ {
            lemma_passed_over(b, n, 0, p);
        } else {
            lemma_agree_behind(a, b, n, p + 1, 0);
            lemma_agree_before(a, b, n, 0, p);
        }
    }
}

/// What is found when an entry was put in at `p`, no entry before having its name.
proof fn lemma_inserted(a: Seq<Weight>, x: Weight, p: int)
    requires
        0 <= p <= a.len(),
        forall|k: int| 0 <= k < p ==> (#[trigger] a[k]).name@ != x.name@,
    ensures
        forall|n: Seq<char>|
            #[trigger] lookup_from(a.insert(p, x), n, 0) == if n == x.name@ {
                Some(x.value)
            } else {
                lookup_from(a, n, 0)
            },
{
    let b = a.insert(p, x);
    assert forall|n: Seq<char>|
        #[trigger] lookup_from(b, n, 0) == if n == x.name@ {
            Some(x.value)
        } else {
            lookup_from(a, n, 0)
        } by {
        if n == x.name@ {
            lemma_passed_over(b, n, 0, p);
        } else {
            lemma_agree_behind(a, b, n, p, 1);
            assert(lookup_from(b, n, p) == lookup_from(b, n, p + 1));
            lemma_agree_before(a, b, n, 0, p);
        }
    }
}

/// An entry put in at its place leaves the names in order.
proof fn lemma_sorted_insert(a: Seq<Weight>, x: Weight, p: int)
    requires
        0 <= p <= a.len(),
        forall|i: int, j: int|
            0 <= i < j < a.len() ==> text_before((#[trigger] a[i]).name@, (#[trigger] a[j]).name@),
        forall|i: int| 0 <= i < p ==> text_before((#[trigger] a[i]).name@, x.name@),
        p < a.len() ==> !text_before(a[p].name@, x.name@) && a[p].name@ != x.name@,
    ensures
        forall|i: int, j: int|
            0 <= i < j < a.len() + 1 ==> text_before(
                (#[trigger] a.insert(p, x)[i]).name@,
                (#[trigger] a.insert(p, x)[j]).name@,
            ),
{
    let b = a.insert(p, x);
    if p < a.len() {
        texts_are_ordered(a[p].name@, x.name@);
    }
    assert forall|i: int, j: int| 0 <= i < j < a.len() + 1 implies text_before(
        (#[trigger] b[i]).name@,
        (#[trigger] b[j]).name@,
    ) by {
        if i < p && j < p {
            assert(text_before(a[i].name@, a[j].name@));
        } else if i < p && j == p {
        } else if i < p {
            assert(text_before(a[i].name@, a[j - 1].name@));
        } else if i == p {
            if j - 1 > p {
                assert(text_before(a[p].name@, a[j - 1].name@));
                text_order_is_transitive(x.name@, a[p].name@, a[j - 1].name@);
            }
        } else {
            assert(text_before(a[i - 1].name@, a[j - 1].name@));
        }
    }
}

/// Whether two tables hold the same names and weights, in the same order.
pub open spec fn same_entries(a: WeightTable, b: WeightTable) -> bool {
    &&& a.entries@.len() == b.entries@.len()
    &&& forall|i: int|
        0 <= i < a.entries@.len() ==> (#[trigger] a.entries@[i]).name@ == b.entries@[i].name@ && a.entries@[i].value
            == b.entries@[i].value
}

proof fn lemma_same_lookup(a: WeightTable, b: WeightTable, name: Seq<char>, i: int)
    requires
        same_entries(a, b),
        0 <= i <= a.entries@.len(),
    ensures
        lookup_from(a.entries@, name, i) == lookup_from(b.entries@, name, i),
    decreases a.entries@.len() - i,
{
    if i < a.entries@.len() {
        assert(a.entries@[i].name@ == b.entries@[i].name@);
        lemma_same_lookup(a, b, name, i + 1);
    }
}

/// Tables with the same entries give every name the same weight.
pub proof fn same_entries_weigh_the_same(a: WeightTable, b: WeightTable, name: Seq<char>)
    requires
        same_entries(a, b),
    ensures
        a.weight(name) == b.weight(name),
{
    lemma_same_lookup(a, b, name, 0);
}

/// A name is looked up where it stands.
proof fn lemma_found(t: WeightTable, i: int)
    requires
        t.sorted(),
        0 <= i < t.entries@.len(),
    ensures
        t.weight(t.entries@[i].name@) == Some(t.entries@[i].value),
{
    let name = t.entries@[i].name@;
    assert forall|k: int| 0 <= k < i implies (#[trigger] t.entries@[k]).name@ != name by {
        assert(text_before(t.entries@[k].name@, t.entries@[i].name@));
        texts_are_ordered(name, name);
    }
    lemma_passed_over(t.entries@, name, 0, i);
}

/// A name that stands nowhere is not found.
proof fn lemma_not_found(entries: Seq<Weight>, name: Seq<char>)
    requires
        forall|k: int| 0 <= k < entries.len() ==> (#[trigger] entries[k]).name@ != name,
    ensures
        lookup_from(entries, name, 0) is None,
{
    lemma_passed_over(entries, name, 0, entries.len() as int);
}

/// Where two tables with the same weights agree up to a place, the first does
/// not hold an earlier name there, and none where the second has ended.
proof fn lemma_no_earlier(a: WeightTable, b: WeightTable, i: int)
    requires
        a.sorted(),
        b.sorted(),
        forall|n: Seq<char>| #[trigger] a.weight(n) == b.weight(n),
        0 <= i < a.entries@.len(),
        i <= b.entries@.len(),
        forall|k: int| 0 <= k < i ==> (#[trigger] a.entries@[k]).name@ == b.entries@[k].name@,
    ensures
        i < b.entries@.len(),
        !text_before(a.entries@[i].name@, b.entries@[i].name@),
{
    let name = a.entries@[i].name@;
    lemma_found(a, i);
    assert(b.weight(name) is Some);
    if i == b.entries@.len() || text_before(name, b.entries@[i].name@) {
        assert forall|k: int| 0 <= k < b.entries@.len() implies (#[trigger] b.entries@[k]).name@ != name by {
            texts_are_ordered(name, name);
            if k < i {
                assert(a.entries@[k].name@ == b.entries@[k].name@);
                assert(text_before(a.entries@[k].name@, a.entries@[i].name@));
            } else if k > i {
                assert(text_before(b.entries@[i].name@, b.entries@[k].name@));
                text_order_is_transitive(name, b.entries@[i].name@, b.entries@[k].name@);
            }
        }
        lemma_not_found(b.entries@, name);
    }
}

/// The names of two tables with the same weights agree up to any place of the first.
proof fn lemma_names_agree(a: WeightTable, b: WeightTable, n: int)
    requires
        a.sorted(),
        b.sorted(),
        forall|m: Seq<char>| #[trigger] a.weight(m) == b.weight(m),
        0 <= n <= a.entries@.len(),
    ensures
        n <= b.entries@.len(),
        forall|k: int| 0 <= k < n ==> (#[trigger] a.entries@[k]).name@ == b.entries@[k].name@,
    decreases n,
{
    if n > 0 {
        lemma_names_agree(a, b, n - 1);
        lemma_no_earlier(a, b, n - 1);
        assert forall|k: int| 0 <= k < n - 1 implies (#[trigger] b.entries@[k]).name@ == a.entries@[k].name@ by {
            assert(a.entries@[k].name@ == b.entries@[k].name@);
        }
        lemma_no_earlier(b, a, n - 1);
        texts_are_ordered(a.entries@[n - 1].name@, b.entries@[n - 1].name@);
    }
}

/// A table is fixed by its weights: its names stand in their order, so that it
/// is written in one way only.
pub proof fn tables_are_canonical(a: WeightTable, b: WeightTable)
    requires
        a.sorted(),
        b.sorted(),
        forall|n: Seq<char>| #[trigger] a.weight(n) == b.weight(n),
    ensures
        same_entries(a, b),
{
    lemma_names_agree(a, b, a.entries@.len() as int);
    lemma_names_agree(b, a, b.entries@.len() as int);
    assert forall|i: int| 0 <= i < a.entries@.len() implies (#[trigger] a.entries@[i]).name@ == b.entries@[i].name@
        && a.entries@[i].value == b.entries@[i].value by {
        lemma_found(a, i);
        lemma_found(b, i);
    }
}

/// The learned weights. A source or topic without a weight is neutral.
#[derive(Debug)]
pub struct Config {
    pub source_weights: WeightTable,
    pub topic_weights: WeightTable,
}

/// A weight, or the neutral one where there is none.
pub open spec fn or_neutral(w: Option<Score>) -> Score {
    match w {
        Some(s) => s,
        None => (Score { place: NEUTRAL_WEIGHT }),
    }
}

impl Config {
    /// Whether both tables stand in order.
    pub open spec fn sorted(&self) -> bool {
        self.source_weights.sorted() && self.topic_weights.sorted()
    }

    /// The weight of a source.
    pub fn source_weight(&self, id: &str) -> (r: Score)
        ensures
            r == or_neutral(self.source_weights.weight(id@)),
    {
        match self.source_weights.get(id) {
            Some(s) => s,
            None => Score { place: NEUTRAL_WEIGHT },
        }
    }

    /// The weight of a topic.
    pub fn topic_weight(&self, topic: &str) -> (r: Score)
        ensures
            r == or_neutral(self.topic_weights.weight(topic@)),
    {
        match self.topic_weights.get(topic) {
            Some(s) => s,
            None => Score { place: NEUTRAL_WEIGHT },
        }
    }

    /// The weights of some topics, in order. An item's share of its topics is
    /// their mean.
    pub fn weights_of(&self, topics: &Vec<String>) -> (r: Vec<Score>)
        ensures
            r@.len() == topics@.len(),
            forall|i: int|
                0 <= i < r@.len() ==> (#[trigger] r@[i]) == or_neutral(self.topic_weights.weight(topics@[i]@)),
    {
        let mut out: Vec<Score> = Vec::new();
        let mut i: usize = 0;
        while i < topics.len()
            invariant
                i <= topics@.len(),
                out@.len() == i,
                forall|k: int|
                    0 <= k < i ==> (#[trigger] out@[k]) == or_neutral(self.topic_weights.weight(topics@[k]@)),
            decreases topics.len() - i,
        {
            out.push(self.topic_weight(&topics[i]));
            i = i + 1;
        }
        out
    }
}

/// The weights that bear on an item: that of its source and those of its
/// topics. Its learned score is the product of the first and the mean of the
/// others, 1.0 where it has no topics.
#[derive(Debug)]
pub struct ItemWeights {
    pub source: Score,
    pub topics: Vec<Score>,
}

/// Whether `w` are the weights that bear on an item of the given source and topics.
pub open spec fn are_item_weights(w: ItemWeights, c: Config, source: Seq<char>, topics: Seq<Seq<char>>) -> bool {
    &&& w.source == or_neutral(c.source_weights.weight(source))
    &&& w.topics@.len() == topics.len()
    &&& forall|i: int|
        0 <= i < topics.len() ==> (#[trigger] w.topics@[i]) == or_neutral(c.topic_weights.weight(topics[i]))
}

impl Config {
    /// The weights that bear on an item of the given source and topics.
    pub fn item_weights(&self, source: &str, topics: &Vec<String>) -> (r: ItemWeights)
        ensures
            are_item_weights(r, *self, source@, views(topics@)),
    {
        ItemWeights { source: self.source_weight(source), topics: self.weights_of(topics) }
    }
}

/// Where nothing was learned, every weight that bears on an item is neutral.
pub proof fn unlearned_weights_are_neutral(w: ItemWeights, c: Config, source: Seq<char>, topics: Seq<Seq<char>>)
    requires
        are_item_weights(w, c, source, topics),
        c.source_weights.entries@.len() == 0,
        c.topic_weights.entries@.len() == 0,
    ensures
        w.source.place == NEUTRAL_WEIGHT,
        forall|i: int| 0 <= i < topics.len() ==> (#[trigger] w.topics@[i]).place == NEUTRAL_WEIGHT,
{
}

impl Default for Config {
    fn default() -> (r: Self)
        ensures
            r.sorted(),
            forall|n: Seq<char>| or_neutral(#[trigger] r.source_weights.weight(n)).place == NEUTRAL_WEIGHT,
            forall|n: Seq<char>| or_neutral(#[trigger] r.topic_weights.weight(n)).place == NEUTRAL_WEIGHT,
            r.source_weights.entries@.len() == 0,
            r.topic_weights.entries@.len() == 0,
    {
        Config { source_weights: WeightTable::new(), topic_weights: WeightTable::new() }
    }
}

impl Clone for Config {
    fn clone(&self) -> (r: Self)
        ensures
            r.source_weights.entries@ == self.source_weights.entries@,
            r.topic_weights.entries@ == self.topic_weights.entries@,
    {
        Config { source_weights: self.source_weights.clone(), topic_weights: self.topic_weights.clone() }
    }
}

/// Of two texts that agree up to a place, the one with the smaller character there
/// comes first, or the one that ends there.
pub proof fn first_difference_decides(a: Seq<char>, b: Seq<char>, k: int)
    requires
        0 <= k <= a.len(),
        k <= b.len(),
        forall|i: int| 0 <= i < k ==> (#[trigger] a[i]) == b[i],
    ensures
        k < a.len() && k < b.len() && a[k] < b[k] ==> text_before(a, b),
        k < a.len() && k < b.len() && a[k] > b[k] ==> !text_before(a, b),
        k == a.len() && k < b.len() ==> text_before(a, b),
        k == b.len() ==> !text_before(a, b),
    decreases k,
{
    if k > 0 {
        assert(a[0] == b[0]);
        assert forall|i: int| 0 <= i < k - 1 implies (#[trigger] a.drop_first()[i]) == b.drop_first()[i] by {
            assert(a[i + 1] == b[i + 1]);
        }
        first_difference_decides(a.drop_first(), b.drop_first(), k - 1);
    }
}

/// A name has the weight of its first entry, and none without an entry.
pub proof fn first_entry_is_the_weight(t: WeightTable, name: Seq<char>, k: int)
    requires
        0 <= k <= t.entries@.len(),
        forall|i: int| 0 <= i < k ==> (#[trigger] t.entries@[i]).name@ != name,
    ensures
        k < t.entries@.len() && t.entries@[k].name@ == name ==> t.weight(name) == Some(t.entries@[k].value),
        k == t.entries@.len() ==> t.weight(name) is None,
{
    lemma_passed_over(t.entries@, name, 0, k);
}

/// What was learned of a source and of a topic weighs its item, and weighs no other.
pub proof fn learned_weights_count(w: ItemWeights, c: Config, source: Seq<char>, topics: Seq<Seq<char>>, i: int)
    requires
        are_item_weights(w, c, source, topics),
        0 <= i < topics.len(),
    ensures
        w.topics@.len() == topics.len(),
        c.source_weights.weight(source) is Some ==> c.source_weights.weight(source) == Some(w.source),
        c.source_weights.weight(source) is None ==> w.source.place == 0x3ff0_0000_0000_0000,
        c.topic_weights.weight(topics[i]) is Some ==> c.topic_weights.weight(topics[i]) == Some(w.topics@[i]),
        c.topic_weights.weight(topics[i]) is None ==> w.topics@[i].place == 0x3ff0_0000_0000_0000,
{
    assert(w.topics@[i] == or_neutral(c.topic_weights.weight(topics[i])));
}

} // verus!
