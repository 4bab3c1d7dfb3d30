//! Looking into a text: trimming, splitting, finding, replacing, counting words.

use crate::text::{alphanumeric, chars_of, joined, string_of, views, white_space};
use vstd::prelude::*;

verus! {

/// The classes of characters that are trimmed off a text somewhere.
#[derive(Clone, Copy)]
pub enum CharClass {
    /// Unicode white space.
    WhiteSpace,
    /// What may stand before a bullet point: `-`, `*`, `•` and the blank.
    Bullet,
    /// Everything that is neither a letter nor a number.
    NotAlphanumeric,
    /// The slash.
    Slash,
}

impl CharClass {
    pub open spec fn has(self, c: char) -> bool {
        match self {
            CharClass::WhiteSpace => white_space(c),
            CharClass::Bullet => c == '-' || c == '*' || c == '•' || c == ' ',
            CharClass::NotAlphanumeric => !alphanumeric(c),
            CharClass::Slash => c == '/',
        }
    }

    /// Whether `c` belongs to the class.
    pub fn contains(self, c: char) -> (r: bool)
        ensures
            r == self.has(c),
    {
        match self {
            CharClass::WhiteSpace => c.is_whitespace(),
            CharClass::Bullet => c == '-' || c == '*' || c == '•' || c == ' ',
            CharClass::NotAlphanumeric => !c.is_alphanumeric(),
            CharClass::Slash => c == '/',
        }
    }
}

/// `s` without the longest prefix whose characters are all of the class.
pub open spec fn left_trimmed(s: Seq<char>, class: CharClass) -> Seq<char>
    decreases s.len(),
{
    if s.len() > 0 && class.has(s[0]) {
        left_trimmed(s.drop_first(), class)
    } else {
        s
    }
}

/// `s` without the longest suffix whose characters are all of the class.
pub open spec fn right_trimmed(s: Seq<char>, class: CharClass) -> Seq<char>
    decreases s.len(),
{
    if s.len() > 0 && class.has(s.last()) {
        right_trimmed(s.drop_last(), class)
    } else {
        s
    }
}

/// `s` without both.
pub open spec fn trimmed(s: Seq<char>, class: CharClass) -> Seq<char> {
    right_trimmed(left_trimmed(s, class), class)
}

/// Trims characters of the class off the front.
pub fn trim_start(s: &str, class: CharClass) -> (r: String)
    ensures
        r@ == left_trimmed(s@, class),
{
    let v = chars_of(s);
    let mut i: usize = 0;
    assert(v@.skip(0) =~= v@);
    while i < v.len() && class.contains(v[i])
        invariant
            i <= v@.len(),
            left_trimmed(v@.skip(i as int), class) == left_trimmed(v@, class),
        decreases v.len() - i,
    {
        assert(v@.skip(i as int).drop_first() =~= v@.skip(i + 1));
        i = i + 1;
    }
    let n: usize = v.len();
    assert(v@.skip(i as int) =~= v@.subrange(i as int, n as int));
    string_of(&v, i, n)
}

/// Trims characters of the class off the end.
pub fn trim_end(s: &str, class: CharClass) -> (r: String)
    ensures
        r@ == right_trimmed(s@, class),
{
    let v = chars_of(s);
    let mut n: usize = v.len();
    assert(v@.take(n as int) =~= v@);
    while n > 0 && class.contains(v[n - 1])
        invariant
            n <= v@.len(),
            right_trimmed(v@.take(n as int), class) == right_trimmed(v@, class),
        decreases n,
    {
        assert(v@.take(n as int).drop_last() =~= v@.take(n - 1));
        n = n - 1;
    }
    assert(v@.take(n as int) =~= v@.subrange(0, n as int));
    string_of(&v, 0, n)
}

/// Trims characters of the class off both ends.
pub fn trim(s: &str, class: CharClass) -> (r: String)
    ensures
        r@ == trimmed(s@, class),
{
    let left = trim_start(s, class);
    trim_end(&left, class)
}

/// The pieces of `s` between the occurrences of `at`: always at least one.
pub open spec fn pieces(s: Seq<char>, at: char) -> Seq<Seq<char>>
    decreases s.len(),
{
    if s.len() == 0 {
        seq![Seq::<char>::empty()]
    } else {
        let before = pieces(s.drop_last(), at);
        if s.last() == at {
            before.push(Seq::empty())
        } else {
            before.drop_last().push(before.last().push(s.last()))
        }
    }
}

/// Splits a text at every `at`.
pub fn split(s: &str, at: char) -> (r: Vec<String>)
    ensures
        views(r@) == pieces(s@, at),
        r@.len() >= 1,
{
    let v = chars_of(s);
    let mut out: Vec<String> = Vec::new();
    let mut cur = String::new();
    let mut i: usize = 0;
    assert(views(out@).push(cur@) =~= pieces(v@.take(0), at));
    while i < v.len()
        invariant
            i <= v@.len(),
            v@ == s@,
            views(out@).push(cur@) == pieces(v@.take(i as int), at),
        decreases v.len() - i,
    {
        let c: char = v[i];
        proof {
            let next = v@.take(i + 1);
            assert(next.drop_last() =~= v@.take(i as int));
            assert(next.last() == c);
            let before = pieces(v@.take(i as int), at);
            assert(before.last() == cur@);
            assert(before.drop_last() =~= views(out@));
        }
        if c == at {
            let ghost prev = out@;
            let ghost last = cur@;
            out.push(cur);
            cur = String::new();
            assert(views(out@) =~= views(prev).push(last));
        } else {
            cur.push(c);
        }
        i = i + 1;
    }
    assert(v@.take(i as int) =~= v@);
    let ghost prev = out@;
    let ghost last = cur@;
    out.push(cur);
    assert(views(out@) =~= views(prev).push(last));
    out
}

/// A line without the carriage return before its line feed.
pub open spec fn chomped(line: Seq<char>) -> Seq<char> {
    if line.len() > 0 && line.last() == '\r' {
        line.drop_last()
    } else {
        line
    }
}

/// The lines of a text. A line ends at a line feed, which may follow a carriage
/// return; what stands behind the last line feed is a line unless it is empty.
pub open spec fn lines(s: Seq<char>) -> Seq<Seq<char>> {
    let p = pieces(s, '\n');
    let ended = Seq::new((p.len() - 1) as nat, |i: int| chomped(p[i]));
    if p.last().len() == 0 {
        ended
    } else {
        ended.push(p.last())
    }
}

/// Drops a carriage return at the end of a line.
fn chomp(line: &str) -> (r: String)
    ensures
        r@ == chomped(line@),
{
    let v = chars_of(line);
    let n: usize = v.len();
    if n > 0 && v[n - 1] == '\r' {
        assert(line@.drop_last() =~= v@.subrange(0, n - 1));
        string_of(&v, 0, n - 1)
    } else {
        assert(line@ =~= v@.subrange(0, n as int));
        string_of(&v, 0, n)
    }
}

/// Splits a text into its lines.
pub fn split_lines(s: &str) -> (r: Vec<String>)
    ensures
        views(r@) == lines(s@),
{
    let p = split(s, '\n');
    let n: usize = p.len() - 1;
    let ghost all = views(p@);
    let mut out: Vec<String> = Vec::new();
    let mut i: usize = 0;
    while i < n
        invariant
            i <= n,
            n + 1 == p@.len(),
            all == views(p@),
            views(out@) == Seq::new(i as nat, |k: int| chomped(all[k])),
        decreases n - i,
    {
        let ghost prev = out@;
        out.push(chomp(&p[i]));
        assert(views(out@) =~= views(prev).push(chomped(all[i as int])));
        assert(views(out@) =~= Seq::new((i + 1) as nat, |k: int| chomped(all[k])));
        i = i + 1;
    }
    assert(all.last() == p@[n as int]@);
    if !p[n].as_str().is_empty() {
        let ghost prev = out@;
        out.push(p[n].clone());
        assert(views(out@) =~= views(prev).push(all.last()));
    }
    out
}

/// The place of the first `c` in `s`; the length of `s` if there is none.
pub open spec fn first_at(s: Seq<char>, c: char) -> int
    decreases s.len(),
{
    if s.len() == 0 || s[0] == c {
        0
    } else {
        1 + first_at(s.drop_first(), c)
    }
}

/// The place of the last `c` in `s`; -1 if there is none.
pub open spec fn last_at(s: Seq<char>, c: char) -> int
    decreases s.len(),
{
    if s.len() == 0 {
        -1
    } else if s.last() == c {
        s.len() - 1
    } else {
        last_at(s.drop_last(), c)
    }
}

/// From the first `{` to the last `}` where the one stands before the other,
/// otherwise the whole text: a JSON object within fences or prose.
pub open spec fn json_part(s: Seq<char>) -> Seq<char> {
    let a = first_at(s, '{');
    let b = last_at(s, '}');
    if a <= b {
        s.subrange(a, b + 1)
    } else {
        s
    }
}

/// Cuts the JSON object out of a model's answer.
pub fn extract_json(s: &str) -> (r: String)
    ensures
        r@ == json_part(s@),
{
    let v = chars_of(s);
    let n: usize = v.len();
    let mut a: usize = 0;
    assert(v@.skip(0) =~= v@);
    while a < n && v[a] != '{'
        invariant
            a <= n,
            n == v@.len(),
            first_at(v@, '{') == a + first_at(v@.skip(a as int), '{'),
        decreases n - a,
    {
        assert(v@.skip(a as int).drop_first() =~= v@.skip(a + 1));
        a = a + 1;
    }
    let mut b: usize = n;
    assert(v@.take(b as int) =~= v@);
    while b > 0 && v[b - 1] != '}'
        invariant
            b <= n,
            n == v@.len(),
            last_at(v@, '}') == last_at(v@.take(b as int), '}'),
        decreases b,
    {
        assert(v@.take(b as int).drop_last() =~= v@.take(b - 1));
        b = b - 1;
    }
    if a < b {
        string_of(&v, a, b)
    } else {
        assert(v@.subrange(0, n as int) =~= v@);
        string_of(&v, 0, n)
    }
}

/// The first `max` characters of `s`, or all of them if there are fewer.
pub open spec fn cut(s: Seq<char>, max: nat) -> Seq<char> {
    if s.len() <= max {
        s
    } else {
        s.take(max as int)
    }
}

/// Cuts a text down to `max` characters.
pub fn truncate(s: &str, max: usize) -> (r: String)
    ensures
        r@ == cut(s@, max as nat),
{
    let v = chars_of(s);
    let n: usize = v.len();
    if n <= max {
        assert(v@.subrange(0, n as int) =~= v@);
        string_of(&v, 0, n)
    } else {
        assert(v@.subrange(0, max as int) =~= v@.take(max as int));
        string_of(&v, 0, max)
    }
}

/// Whether `t` stands in `s` at `i`.
pub open spec fn stands_at(s: Seq<char>, t: Seq<char>, i: int) -> bool {
    0 <= i && i + t.len() <= s.len() && s.subrange(i, i + t.len()) == t
}

/// Whether `t` stands somewhere in `s`.
pub open spec fn has_part(s: Seq<char>, t: Seq<char>) -> bool {
    exists|i: int| #[trigger] stands_at(s, t, i)
}

/// `s` with every occurrence of `t`, taken from the left without overlap,
/// replaced by `by`.
pub open spec fn replaced(s: Seq<char>, t: Seq<char>, by: Seq<char>) -> Seq<char>
    recommends
        t.len() > 0,
    decreases s.len(),
{
    if s.len() == 0 || t.len() == 0 {
        s
    } else if stands_at(s, t, 0) {
        by + replaced(s.skip(t.len() as int), t, by)
    } else {
        seq![s[0]] + replaced(s.drop_first(), t, by)
    }
}

/// Whether the characters `t` stand in `s` at `i`.
fn match_at(s: &Vec<char>, t: &Vec<char>, i: usize) -> (r: bool)
    requires
        i <= s@.len(),
    ensures
        r == stands_at(s@, t@, i as int),
{
    let n: usize = s.len();
    if t.len() > n - i {
        return false;
    }
    let mut k: usize = 0;
    while k < t.len()
        invariant
            k <= t@.len(),
            n == s@.len(),
            i + t@.len() <= n,
            forall|j: int| 0 <= j < k ==> s@[i + j] == #[trigger] t@[j],
        decreases t.len() - k,
    {
        if s[i + k] != t[k] {
            assert(s@.subrange(i as int, i + t@.len())[k as int] != t@[k as int]);
            return false;
        }
        k = k + 1;
    }
    assert(s@.subrange(i as int, i + t@.len()) =~= t@);
    true
}

/// Whether `t` occurs in `s`.
pub fn contains_part(s: &str, t: &str) -> (r: bool)
    ensures
        r == has_part(s@, t@),
{
    let v = chars_of(s);
    let w = chars_of(t);
    let mut i: usize = 0;
    while i < v.len()
        invariant
            i <= v@.len(),
            v@ == s@,
            w@ == t@,
            forall|j: int| 0 <= j < i ==> !#[trigger] stands_at(s@, t@, j),
        decreases v.len() - i,
    {
        if match_at(&v, &w, i) {
            return true;
        }
        i = i + 1;
    }
    let last = match_at(&v, &w, i);
    proof {
        if has_part(s@, t@) {
            let j = choose|j: int| #[trigger] stands_at(s@, t@, j);
            assert(j == i);
        }
    }
    last
}

/// Replaces every occurrence of `t` in `s` by `by`.
pub fn replace(s: &str, t: &str, by: &str) -> (r: String)
    requires
        t@.len() > 0,
    ensures
        r@ == replaced(s@, t@, by@),
{
    let v = chars_of(s);
    let w = chars_of(t);
    let mut out = String::new();
    let mut i: usize = 0;
    assert(v@.skip(0) =~= v@);
    while i < v.len()
        invariant
            i <= v@.len(),
            v@ == s@,
            w@ == t@,
            t@.len() > 0,
            out@ + replaced(v@.skip(i as int), t@, by@) == replaced(s@, t@, by@),
        decreases v.len() - i,
    {
        let ghost rest = v@.skip(i as int);
        assert(rest.len() == v@.len() - i);
        assert(stands_at(rest, t@, 0) == stands_at(v@, t@, i as int)) by {
            if i + t@.len() <= v@.len() {
                assert(rest.subrange(0, t@.len() as int) =~= v@.subrange(i as int, i + t@.len()));
            }
        }
        if match_at(&v, &w, i) {
            let ghost prev = out@;
            out.append(by);
            assert(rest.skip(t@.len() as int) =~= v@.skip(i + t@.len()));
            assert(out@ + replaced(v@.skip(i + t@.len()), t@, by@) =~= prev + (by@ + replaced(v@.skip(i + t@.len()), t@, by@)));
            i = i + w.len();
        } else {
            let ghost prev = out@;
            out.push(v[i]);
            assert(rest.drop_first() =~= v@.skip(i + 1));
            assert(out@ + replaced(v@.skip(i + 1), t@, by@) =~= prev + (seq![rest[0]] + replaced(v@.skip(i + 1), t@, by@)));
            i = i + 1;
        }
    }
    assert(out@ + replaced(v@.skip(i as int), t@, by@) =~= out@);
    out
}

/// How many words `s` has: a word starts at every character that is no white
/// space and stands first or behind white space.
pub open spec fn words(s: Seq<char>) -> nat
    decreases s.len(),
{
    if s.len() == 0 {
        0
    } else {
        let n = s.len() - 1;
        words(s.drop_last()) + if !white_space(s[n]) && (n == 0 || white_space(s[n - 1])) {
            1nat
        } else {
            0nat
        }
    }
}

/// Counts the words of a text.
pub fn count_words(s: &str) -> (r: usize)
    ensures
        r == words(s@),
{
    let v = chars_of(s);
    let mut n: usize = 0;
    let mut i: usize = 0;
    while i < v.len()
        invariant
            i <= v@.len(),
            v@ == s@,
            n <= i,
            n == words(v@.take(i as int)),
        decreases v.len() - i,
    {
        assert(v@.take(i + 1).drop_last() =~= v@.take(i as int));
        if !v[i].is_whitespace() && (i == 0 || v[i - 1].is_whitespace()) {
            n = n + 1;
        }
        i = i + 1;
    }
    assert(v@.take(i as int) =~= v@);
    n
}

/// A text without the characters that Telegram reads as Markdown.
pub open spec fn stripped(s: Seq<char>) -> Seq<char>
    decreases s.len(),
{
    if s.len() == 0 {
        s
    } else if markup(s.last()) {
        stripped(s.drop_last())
    } else {
        stripped(s.drop_last()).push(s.last())
    }
}

/// The characters that open a Markdown span in Telegram.
pub open spec fn markup(c: char) -> bool {
    c == '*' || c == '_' || c == '`' || c == '['
}

/// Drops the Markdown characters from a text.
pub fn strip_md(s: &str) -> (r: String)
    ensures
        r@ == stripped(s@),
{
    let v = chars_of(s);
    let mut out = String::new();
    let mut i: usize = 0;
    while i < v.len()
        invariant
            i <= v@.len(),
            v@ == s@,
            out@ == stripped(v@.take(i as int)),
        decreases v.len() - i,
    {
        assert(v@.take(i + 1).drop_last() =~= v@.take(i as int));
        let c: char = v[i];
        if !(c == '*' || c == '_' || c == '`' || c == '[') {
            out.push(c);
        }
        i = i + 1;
    }
    assert(v@.take(i as int) =~= v@);
    out
}

/// Words are what white space separates: a text of other characters is one word,
/// and a text has the words of what stands before a white space and of what stands
/// behind it.
pub proof fn white_space_separates_words(a: Seq<char>, w: char, b: Seq<char>)
    requires
        white_space(w),
    ensures
        words(a.push(w) + b) == words(a) + words(b),
        words(Seq::empty()) == 0,
        a.len() > 0 && (forall|i: int| 0 <= i < a.len() ==> !white_space(#[trigger] a[i])) ==> words(a) == 1,
    decreases a.len() + b.len(),
{
    if b.len() == 0 {
        assert(a.push(w) + b =~= a.push(w));
        assert(a.push(w).drop_last() =~= a);
    } else {
        let s = a.push(w) + b;
        white_space_separates_words(a, w, b.drop_last());
        assert(s.drop_last() =~= a.push(w) + b.drop_last());
        let n = s.len() - 1;
        assert(s[n] == b[b.len() - 1]);
        if b.len() == 1 {
            assert(s[n - 1] == w);
        } else {
            assert(s[n - 1] == b[b.len() - 2]);
        }
    }
    if a.len() > 0 && (forall|i: int| 0 <= i < a.len() ==> !white_space(#[trigger] a[i])) {
        lemma_one_word(a);
    }
}

proof fn lemma_one_word(a: Seq<char>)
    requires
        a.len() > 0,
        forall|i: int| 0 <= i < a.len() ==> !white_space(#[trigger] a[i]),
    ensures
        words(a) == 1,
    decreases a.len(),
{
    if a.len() == 1 {
        assert(words(a.drop_last()) == 0);
        assert(!white_space(a[0]));
    } else {
        assert forall|i: int| 0 <= i < a.drop_last().len() implies !white_space(#[trigger] a.drop_last()[i]) by {
            assert(!white_space(a[i]));
        }
        lemma_one_word(a.drop_last());
        assert(!white_space(a[a.len() - 2]));
    }
}

/// Trimming takes away characters of the class at both ends and nothing else: what
/// is left stands in the text, does not start or end with such a character, and what
/// was before and behind it is made of such characters.
pub proof fn trimming_takes_the_ends(s: Seq<char>, class: CharClass) -> (r: (int, int))
    ensures
        0 <= r.0 <= r.1 <= s.len(),
        trimmed(s, class) == s.subrange(r.0, r.1),
        forall|i: int| 0 <= i < r.0 ==> class.has(#[trigger] s[i]),
        forall|i: int| r.1 <= i < s.len() ==> class.has(#[trigger] s[i]),
        r.0 < r.1 ==> !class.has(s[r.0]) && !class.has(s[r.1 - 1]),
{
    let from = left_trimming_takes_the_start(s, class);
    let rest = left_trimmed(s, class);
    let keep = right_trimming_takes_the_end(rest, class);
    assert(trimmed(s, class) =~= s.subrange(from, from + keep));
    assert forall|i: int| from + keep <= i < s.len() implies class.has(#[trigger] s[i]) by {
        assert(rest[i - from] == s[i]);
    }
    if keep > 0 {
        assert(rest[0] == s[from]);
        assert(rest[keep - 1] == s[from + keep - 1]);
    }
    (from, from + keep)
}

/// Trimming at the start takes away the characters of the class that stand there,
/// and nothing else.
pub proof fn left_trimming_takes_the_start(s: Seq<char>, class: CharClass) -> (from: int)
    ensures
        0 <= from <= s.len(),
        left_trimmed(s, class) == s.subrange(from, s.len() as int),
        forall|i: int| 0 <= i < from ==> class.has(#[trigger] s[i]),
        from < s.len() ==> !class.has(s[from]),
    decreases s.len(),
{
    if s.len() > 0 && class.has(s[0]) {
        let rest = s.drop_first();
        let k = left_trimming_takes_the_start(rest, class);
        assert(left_trimmed(s, class) =~= s.subrange(k + 1, s.len() as int));
        assert forall|i: int| 0 <= i < k + 1 implies class.has(#[trigger] s[i]) by {
            if i > 0 {
                assert(rest[i - 1] == s[i]);
            }
        }
        if k + 1 < s.len() {
            assert(rest[k] == s[k + 1]);
        }
        k + 1
    } else {
        assert(s.subrange(0, s.len() as int) =~= s);
        0
    }
}

/// Trimming at the end takes away the characters of the class that stand there, and
/// nothing else.
pub proof fn right_trimming_takes_the_end(s: Seq<char>, class: CharClass) -> (keep: int)
    ensures
        0 <= keep <= s.len(),
        right_trimmed(s, class) == s.subrange(0, keep),
        forall|i: int| keep <= i < s.len() ==> class.has(#[trigger] s[i]),
        keep > 0 ==> !class.has(s[keep - 1]),
    decreases s.len(),
{
    if s.len() > 0 && class.has(s.last()) {
        let k = right_trimming_takes_the_end(s.drop_last(), class);
        assert(s.drop_last().subrange(0, k) =~= s.subrange(0, k));
        assert forall|i: int| k <= i < s.len() implies class.has(#[trigger] s[i]) by {
            if i < s.len() - 1 {
                assert(s.drop_last()[i] == s[i]);
            }
        }
        k
    } else {
        assert(s.subrange(0, s.len() as int) =~= s);
        s.len() as int
    }
}

/// Splitting loses nothing: the pieces hold no separator, and put together with
/// the separator between them they are the text.
pub proof fn pieces_make_the_text(s: Seq<char>, at: char)
    ensures
        pieces(s, at).len() >= 1,
        forall|i: int, k: int|
            0 <= i < pieces(s, at).len() && 0 <= k < pieces(s, at)[i].len() ==> (#[trigger] pieces(s, at)[i][k]) != at,
        joined(pieces(s, at), seq![at]) == s,
    decreases s.len(),
{
    if s.len() == 0 {
        assert(joined(pieces(s, at), seq![at]) =~= s);
    } else {
        let before = pieces(s.drop_last(), at);
        let all = pieces(s, at);
        pieces_make_the_text(s.drop_last(), at);
        assert(s =~= s.drop_last().push(s.last()));
        if s.last() == at {
            assert(all.drop_last() =~= before);
            assert(joined(all, seq![at]) =~= s);
        } else {
            let rest = before.drop_last();
            assert(all.drop_last() =~= rest);
            assert(all.last() == before.last().push(s.last()));
            if before.len() == 1 {
                assert(joined(before, seq![at]) == before[0]);
                assert(joined(all, seq![at]) =~= s);
            } else {
                assert(joined(before, seq![at]) == joined(rest, seq![at]) + seq![at] + before.last());
                assert(joined(all, seq![at]) =~= s);
            }
            assert forall|i: int, k: int| 0 <= i < all.len() && 0 <= k < all[i].len() implies (#[trigger] all[i][k])
                != at by {
                if i < rest.len() {
                    assert(all[i] == before[i]);
                    assert(before[i][k] != at);
                } else if k < before.last().len() {
                    assert(before[before.len() - 1][k] != at);
                }
            }
        }
    }
}

/// The lines of a text: one for each line feed, without it and without a carriage
/// return before it, and one for what stands behind the last line feed, if anything does.
pub proof fn lines_end_at_line_feeds(s: Seq<char>)
    ensures
        lines(Seq::empty()).len() == 0,
        s.len() > 0 && !s.contains('\n') ==> lines(s) == seq![s],
        !s.contains('\n') ==> lines(s.push('\n')) == seq![if s.len() > 0 && s.last() == '\r' {
            s.drop_last()
        } else {
            s
        }],
{
    assert(pieces(Seq::<char>::empty(), '\n') =~= seq![Seq::<char>::empty()]);
    assert(lines(Seq::empty()) =~= seq![]);
    if !s.contains('\n') {
        lemma_one_piece(s, '\n');
        if s.len() > 0 {
            assert(lines(s) =~= seq![s]);
        }
        let t = s.push('\n');
        assert(t.drop_last() =~= s);
        assert(pieces(t, '\n') =~= seq![s, Seq::<char>::empty()]);
        assert(lines(t) =~= seq![chomped(s)]);
    }
}

proof fn lemma_one_piece(s: Seq<char>, at: char)
    requires
        !s.contains(at),
    ensures
        pieces(s, at) == seq![s],
    decreases s.len(),
{
    if s.len() > 0 {
        assert(s[s.len() - 1] == s.last());
        assert forall|i: int| 0 <= i < s.drop_last().len() implies s.drop_last()[i] != at by {
            assert(s[i] == s.drop_last()[i]);
        }
        lemma_one_piece(s.drop_last(), at);
        assert(s.drop_last().push(s.last()) =~= s);
        assert(pieces(s, at) =~= seq![s]);
    } else {
        assert(s =~= Seq::<char>::empty());
        assert(pieces(s, at) =~= seq![s]);
    }
}

/// A JSON object is cut out of what surrounds it, where that holds no braces.
pub proof fn json_is_found_in_prose(before: Seq<char>, inner: Seq<char>, behind: Seq<char>)
    requires
        !before.contains('{'),
        !behind.contains('}'),
    ensures
        json_part(before + seq!['{'] + inner + seq!['}'] + behind) == seq!['{'] + inner + seq!['}'],
        json_part(before + behind) == before + behind,
        json_part(before) == before,
        json_part(behind) == behind,
{
    let s = before + seq!['{'] + inner + seq!['}'] + behind;
    let a = before.len() as int;
    let b = a + 1 + inner.len();
    assert(s[a] == '{' && s[b] == '}');
    assert forall|i: int| 0 <= i < a implies s[i] != '{' by {
        assert(s[i] == before[i]);
    }
    lemma_first_at(s, '{', a);
    assert forall|i: int| b < i < s.len() implies s[i] != '}' by {
        assert(s[i] == behind[i - b - 1]);
    }
    lemma_last_at(s, '}', b);
    assert(s.subrange(a, b + 1) =~= seq!['{'] + inner + seq!['}']);
    let t = before + behind;
    assert forall|i: int| 0 <= i < a implies t[i] != '{' by {
        assert(t[i] == before[i]);
    }
    assert forall|i: int| a <= i < t.len() implies t[i] != '}' by {
        assert(t[i] == behind[i - a]);
    }
    lemma_first_past(t, '{', a);
    lemma_last_before(t, '}', a);
    lemma_first_past(before, '{', a);
    lemma_last_before(before, '}', a);
    lemma_first_past(behind, '{', 0);
    lemma_last_before(behind, '}', 0);
}

proof fn lemma_first_at(s: Seq<char>, c: char, k: int)
    requires
        0 <= k < s.len(),
        s[k] == c,
        forall|i: int| 0 <= i < k ==> s[i] != c,
    ensures
        first_at(s, c) == k,
    decreases k,
{
    if k > 0 {
        assert(s[0] != c);
        assert forall|i: int| 0 <= i < k - 1 implies s.drop_first()[i] != c by {
            assert(s.drop_first()[i] == s[i + 1]);
        }
        lemma_first_at(s.drop_first(), c, k - 1);
    }
}

proof fn lemma_last_at(s: Seq<char>, c: char, k: int)
    requires
        0 <= k < s.len(),
        s[k] == c,
        forall|i: int| k < i < s.len() ==> s[i] != c,
    ensures
        last_at(s, c) == k,
    decreases s.len(),
{
    if k < s.len() - 1 {
        assert(s[s.len() - 1] != c);
        assert forall|i: int| k < i < s.drop_last().len() implies s.drop_last()[i] != c by {
            assert(s.drop_last()[i] == s[i]);
        }
        lemma_last_at(s.drop_last(), c, k);
    }
}

proof fn lemma_first_past(s: Seq<char>, c: char, k: int)
    requires
        0 <= k <= s.len(),
        forall|i: int| 0 <= i < k ==> s[i] != c,
    ensures
        first_at(s, c) >= k,
    decreases s.len(),
{
    if s.len() > 0 && s[0] != c {
        if k > 0 {
            assert forall|i: int| 0 <= i < k - 1 implies s.drop_first()[i] != c by {
                assert(s.drop_first()[i] == s[i + 1]);
            }
            lemma_first_past(s.drop_first(), c, k - 1);
        } else {
            lemma_first_past(s.drop_first(), c, 0);
        }
    }
}

proof fn lemma_last_before(s: Seq<char>, c: char, k: int)
    requires
        0 <= k <= s.len(),
        forall|i: int| k <= i < s.len() ==> s[i] != c,
    ensures
        last_at(s, c) < k,
    decreases s.len(),
{
    if s.len() > 0 && s.last() != c {
        if k < s.len() {
            assert forall|i: int| k <= i < s.drop_last().len() implies s.drop_last()[i] != c by {
                assert(s.drop_last()[i] == s[i]);
            }
            lemma_last_before(s.drop_last(), c, k);
        } else {
            lemma_last_before(s.drop_last(), c, k - 1);
        }
    }
}

/// Every occurrence of a text is replaced: where it stands first, it gives way and
/// the rest is replaced behind it; where it stands nowhere, nothing changes.
pub proof fn every_occurrence_is_replaced(s: Seq<char>, t: Seq<char>, by: Seq<char>)
    requires
        t.len() > 0,
    ensures
        replaced(t + s, t, by) == by + replaced(s, t, by),
        s.len() > 0 && !t.is_prefix_of(s) ==> replaced(s, t, by) == seq![s[0]] + replaced(s.drop_first(), t, by),
        (forall|x: Seq<char>, y: Seq<char>| s != #[trigger] (x + t + y)) ==> replaced(s, t, by) == s,
{
    let all = t + s;
    if s.len() > 0 && !t.is_prefix_of(s) {
        assert(!stands_at(s, t, 0)) by {
            if stands_at(s, t, 0) {
                assert(s.subrange(0, t.len() as int) =~= t);
            }
        }
    }
    assert(all.subrange(0, t.len() as int) =~= t);
    assert(all.skip(t.len() as int) =~= s);
    if forall|x: Seq<char>, y: Seq<char>| s != #[trigger] (x + t + y) {
        part_stands_between(s, t, seq![], seq![]);
        lemma_nothing_replaced(s, t, by);
    }
}

proof fn lemma_nothing_replaced(s: Seq<char>, t: Seq<char>, by: Seq<char>)
    requires
        t.len() > 0,
        !has_part(s, t),
    ensures
        replaced(s, t, by) == s,
    decreases s.len(),
{
    if s.len() > 0 {
        assert(!stands_at(s, t, 0));
        let rest = s.drop_first();
        assert forall|i: int| !#[trigger] stands_at(rest, t, i) by {
            if stands_at(rest, t, i) {
                assert(rest.subrange(i, i + t.len()) =~= s.subrange(i + 1, i + 1 + t.len()));
                assert(stands_at(s, t, i + 1));
            }
        }
        lemma_nothing_replaced(rest, t, by);
        assert(seq![s[0]] + rest =~= s);
    }
}

/// What is left of a text behind stripping are its other characters, in order.
pub proof fn markup_is_stripped(s: Seq<char>)
    ensures
        stripped(s) == s.filter(|c: char| c != '*' && c != '_' && c != '`' && c != '['),
    decreases s.len(),
{
    reveal(Seq::filter);
    if s.len() > 0 {
        markup_is_stripped(s.drop_last());
    }
}

/// A cut text is the beginning of the text, as long as allowed and no longer.
pub proof fn cut_is_a_beginning(s: Seq<char>, max: nat)
    ensures
        cut(s, max).len() <= max,
        cut(s, max).len() == max || cut(s, max) == s,
        cut(s, max).is_prefix_of(s),
{
}

/// A text is found exactly where something stands before it and behind it.
pub proof fn part_stands_between(s: Seq<char>, t: Seq<char>, before: Seq<char>, behind: Seq<char>)
    ensures
        has_part(before + t + behind, t),
        has_part(s, t) ==> exists|x: Seq<char>, y: Seq<char>| s == #[trigger] (x + t + y),
{
    let all = before + t + behind;
    assert(all.subrange(before.len() as int, before.len() as int + t.len()) =~= t);
    assert(stands_at(all, t, before.len() as int));
    if has_part(s, t) {
        let i = choose|i: int| #[trigger] stands_at(s, t, i);
        assert(s =~= s.take(i) + t + s.skip(i + t.len()));
    }
}

/// Characters of a class around a text are trimmed away, and nothing of the text.
pub proof fn ends_are_trimmed(p: Seq<char>, w: Seq<char>, q: Seq<char>, class: CharClass)
    requires
        forall|i: int| 0 <= i < p.len() ==> class.has(#[trigger] p[i]),
        forall|i: int| 0 <= i < q.len() ==> class.has(#[trigger] q[i]),
        w.len() > 0 ==> !class.has(w[0]) && !class.has(w.last()),
    ensures
        trimmed(p + w + q, class) == w,
{
    let s = p + w + q;
    let ends = trimming_takes_the_ends(s, class);
    if w.len() == 0 {
        if ends.0 < ends.1 {
            assert(class.has(s[ends.0])) by {
                if ends.0 < p.len() {
                    assert(s[ends.0] == p[ends.0]);
                } else {
                    assert(s[ends.0] == q[ends.0 - p.len()]);
                }
            }
        }
        assert(trimmed(s, class) =~= w);
    } else {
        let a = p.len() as int;
        let b = a + w.len();
        assert(s[a] == w[0] && s[b - 1] == w.last());
        assert(ends.0 <= a && ends.1 >= b) by {
            if ends.0 > a {
                assert(class.has(s[a]));
            }
            if ends.1 < b {
                assert(class.has(s[b - 1]));
            }
        }
        if ends.0 < a {
            assert(s[ends.0] == p[ends.0]);
        }
        if ends.1 > b {
            assert(s[ends.1 - 1] == q[ends.1 - 1 - b]);
        }
        assert(trimmed(s, class) =~= w);
    }
}

/// Blanks around a text are trimmed away, and nothing of the text.
pub proof fn blanks_are_trimmed(p: Seq<char>, w: Seq<char>, q: Seq<char>)
    requires
        forall|i: int| 0 <= i < p.len() ==> white_space(#[trigger] p[i]),
        forall|i: int| 0 <= i < q.len() ==> white_space(#[trigger] q[i]),
        w.len() > 0 ==> !white_space(w[0]) && !white_space(w.last()),
    ensures
        trimmed(p + w + q, CharClass::WhiteSpace) == w,
{
    ends_are_trimmed(p, w, q, CharClass::WhiteSpace);
}

/// What stands in a part of a text stands in the text.
pub proof fn part_of_a_part(s: Seq<char>, t: Seq<char>, u: Seq<char>)
    requires
        has_part(s, t),
        has_part(t, u),
    ensures
        has_part(s, u),
{
    let i = choose|i: int| #[trigger] stands_at(s, t, i);
    let j = choose|j: int| #[trigger] stands_at(t, u, j);
    assert(s.subrange(i + j, i + j + u.len()) =~= t.subrange(j, j + u.len()));
    assert(stands_at(s, u, i + j));
}

/// A separator ends a piece: what stands before it and what stands behind it are split
/// for themselves, and so are the lines.
pub proof fn separator_ends_a_piece(a: Seq<char>, b: Seq<char>, at: char)
    ensures
        pieces(a.push(at) + b, at) == pieces(a, at) + pieces(b, at),
        lines(a.push('\n') + b) == lines(a.push('\n')) + lines(b),
        !a.contains(at) ==> pieces(a, at) == seq![a],
{
    lemma_pieces_follow(a, b, at);
    if !a.contains(at) {
        lemma_one_piece(a, at);
    }
    lemma_pieces_follow(a, b, '\n');
    lemma_pieces_follow(a, seq![], '\n');
    assert(a.push('\n') + seq![] =~= a.push('\n'));
    pieces_make_the_text(a, '\n');
    pieces_make_the_text(b, '\n');
    let p = pieces(a, '\n');
    let q = pieces(b, '\n');
    assert(pieces(Seq::<char>::empty(), '\n') =~= seq![Seq::<char>::empty()]);
    assert((p + q).last() == q.last());
    assert(lines(a.push('\n') + b) =~= lines(a.push('\n')) + lines(b));
}

proof fn lemma_pieces_follow(a: Seq<char>, b: Seq<char>, at: char)
    ensures
        pieces(a.push(at) + b, at) == pieces(a, at) + pieces(b, at),
    decreases b.len(),
{
    let s = a.push(at) + b;
    if b.len() == 0 {
        assert(s =~= a.push(at));
        assert(s.drop_last() =~= a);
        assert(pieces(s, at) =~= pieces(a, at) + pieces(b, at));
    } else {
        lemma_pieces_follow(a, b.drop_last(), at);
        pieces_make_the_text(b.drop_last(), at);
        assert(s.drop_last() =~= a.push(at) + b.drop_last());
        assert(pieces(s, at) =~= pieces(a, at) + pieces(b, at));
    }
}

} // verus!
