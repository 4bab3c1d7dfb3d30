//! Text as a sequence of characters: comparing, searching, splitting, trimming
//! and printing, each function stated over `Seq<char>`.

use vstd::prelude::*;

verus! {

broadcast use vstd::seq_lib::group_seq_properties;

/// The sequence of the views of a sequence of values.
pub open spec fn views<T: View>(s: Seq<T>) -> Seq<T::V> {
    Seq::new(s.len(), |i: int| s[i]@)
}

/// The view of an optional text.
pub open spec fn opt_text(o: Option<String>) -> Option<Seq<char>> {
    match o {
        Some(s) => Some(s@),
        None => None,
    }
}

/// `String::push` appends one character.
pub assume_specification[ String::push ](s: &mut String, c: char)
    ensures
        final(s)@ == old(s)@.push(c),
;

/// The characters that the Unicode property `White_Space` holds of.
pub open spec fn white_space(c: char) -> bool {
    ||| '\u{9}' <= c <= '\u{d}'
    ||| c == ' ' || c == '\u{85}' || c == '\u{a0}' || c == '\u{1680}'
    ||| '\u{2000}' <= c <= '\u{200a}'
    ||| c == '\u{2028}' || c == '\u{2029}' || c == '\u{202f}' || c == '\u{205f}' || c == '\u{3000}'
}

/// `char::is_whitespace` decides the Unicode property `White_Space`.
pub assume_specification[ char::is_whitespace ](c: char) -> (r: bool)
    ensures
        r == white_space(c),
;

/// The small letters that German has beyond ASCII.
pub open spec fn is_umlaut(c: char) -> bool {
    c == 'ä' || c == 'ö' || c == 'ü' || c == 'ß'
}

/// Whether a character is in ASCII.
pub open spec fn is_ascii(c: char) -> bool {
    c <= '\u{7f}'
}

/// Which characters beyond ASCII and the German small letters are letters or
/// numbers in Unicode.
pub uninterp spec fn alphanumeric_beyond(c: char) -> bool;

/// The characters that are letters or numbers in Unicode. In ASCII these are the
/// letters and the digits.
pub open spec fn alphanumeric(c: char) -> bool {
    if is_ascii(c) {
        'a' <= c <= 'z' || 'A' <= c <= 'Z' || '0' <= c <= '9'
    } else if is_umlaut(c) {
        true
    } else {
        alphanumeric_beyond(c)
    }
}

/// `char::is_alphanumeric` decides whether a character is a letter or a number
/// in Unicode.
pub assume_specification[ char::is_alphanumeric ](c: char) -> (r: bool)
    ensures
        r == if is_ascii(c) || is_umlaut(c) {
            alphanumeric(c)
        } else {
            alphanumeric_beyond(c)
        },
;

/// Whether a text is made of ASCII and the German small letters.
pub open spec fn is_common(s: Seq<char>) -> bool {
    forall|i: int| 0 <= i < s.len() ==> is_ascii(#[trigger] s[i]) || is_umlaut(s[i])
}

/// A letter of ASCII as a small one; any other character as it is.
pub open spec fn small(c: char) -> char {
    if 'A' <= c <= 'Z' {
        (c as int + 32) as char
    } else {
        c
    }
}

/// The lower case, by the Unicode rules, of a text with other characters.
pub uninterp spec fn lowercase_beyond(s: Seq<char>) -> Seq<char>;

/// The lower case of a text by the Unicode rules. A text of ASCII and German
/// small letters is lowered letter by letter.
pub open spec fn lowercase(s: Seq<char>) -> Seq<char> {
    if is_common(s) {
        s.map_values(|c: char| small(c))
    } else {
        lowercase_beyond(s)
    }
}

/// `str::to_lowercase` gives the lower case of a text by the Unicode rules.
pub assume_specification[ str::to_lowercase ](s: &str) -> (r: String)
    ensures
        r@ == if is_common(s@) {
            lowercase(s@)
        } else {
            lowercase_beyond(s@)
        },
;

/// A letter of ASCII as a capital; any other character as it is.
pub open spec fn capital(c: char) -> char {
    if 'a' <= c <= 'z' {
        (c as int - 32) as char
    } else {
        c
    }
}

/// The upper case, by the Unicode rules, of a text with other characters.
pub uninterp spec fn uppercase_beyond(s: Seq<char>) -> Seq<char>;

/// The upper case of a text by the Unicode rules. A text of ASCII is raised
/// letter by letter.
pub open spec fn uppercase(s: Seq<char>) -> Seq<char> {
    if forall|i: int| 0 <= i < s.len() ==> is_ascii(#[trigger] s[i]) {
        s.map_values(|c: char| capital(c))
    } else {
        uppercase_beyond(s)
    }
}

/// `str::to_uppercase` gives the upper case of a text by the Unicode rules.
pub assume_specification[ str::to_uppercase ](s: &str) -> (r: String)
    ensures
        r@ == if forall|i: int| 0 <= i < s@.len() ==> is_ascii(#[trigger] s@[i]) {
            uppercase(s@)
        } else {
            uppercase_beyond(s@)
        },
;

/// The characters of a text, in order.
pub fn chars_of(s: &str) -> (r: Vec<char>)
    ensures
        r@ == s@,
{
    let mut out: Vec<char> = Vec::new();
    for c in it: s.chars()
        invariant
            it.seq() == s@,
            out@ == it.seq().take(it.index() as int),
    {
        out.push(c);
    }
    out
}

/// The text made of the characters from `from` up to `to`.
pub fn string_of(v: &Vec<char>, from: usize, to: usize) -> (r: String)
    requires
        from <= to <= v@.len(),
    ensures
        r@ == v@.subrange(from as int, to as int),
{
    let mut out = String::new();
    let mut i: usize = from;
    while i < to
        invariant
            from <= i <= to <= v@.len(),
            out@ == v@.subrange(from as int, i as int),
        decreases to - i,
    {
        out.push(v[i]);
        assert(v@.subrange(from as int, i + 1) =~= v@.subrange(from as int, i as int).push(v@[i as int]));
        i = i + 1;
    }
    out
}

/// Whether two texts are the same.
pub fn same(a: &str, b: &str) -> (r: bool)
    ensures
        r == (a@ == b@),
{
    let x = chars_of(a);
    let y = chars_of(b);
    if x.len() != y.len() {
        return false;
    }
    let mut i: usize = 0;
    while i < x.len()
        invariant
            i <= x@.len(),
            x@.len() == y@.len(),
            x@ == a@,
            y@ == b@,
            x@.take(i as int) =~= y@.take(i as int),
        decreases x.len() - i,
    {
        if x[i] != y[i] {
            return false;
        }
        i = i + 1;
    }
    assert(x@.take(i as int) =~= x@ && y@.take(i as int) =~= y@);
    true
}

/// The place of the first text in `list` that equals `t`.
pub fn position_of(list: &Vec<String>, t: &str) -> (r: Option<usize>)
    ensures
        match r {
            Some(i) => i < list@.len() && list@[i as int]@ == t@ && forall|j: int|
                0 <= j < i ==> (#[trigger] list@[j])@ != t@,
            None => forall|j: int| 0 <= j < list@.len() ==> (#[trigger] list@[j])@ != t@,
        },
{
    let mut i: usize = 0;
    while i < list.len()
        invariant
            i <= list@.len(),
            forall|j: int| 0 <= j < i ==> (#[trigger] list@[j])@ != t@,
        decreases list.len() - i,
    {
        if same(&list[i], t) {
            return Some(i);
        }
        i = i + 1;
    }
    None
}

/// Whether `list` holds the text `t`.
pub fn holds(list: &Vec<String>, t: &str) -> (r: bool)
    ensures
        r == views(list@).contains(t@),
{
    let at = position_of(list, t);
    proof {
        if let Some(i) = at {
            assert(views(list@)[i as int] == t@);
        }
    }
    at.is_some()
}

/// A copy of a list of texts.
pub fn clone_texts(list: &Vec<String>) -> (r: Vec<String>)
    ensures
        r@ == list@,
{
    let mut out: Vec<String> = Vec::new();
    let mut i: usize = 0;
    while i < list.len()
        invariant
            i <= list@.len(),
            out@ == list@.take(i as int),
        decreases list.len() - i,
    {
        out.push(list[i].clone());
        assert(list@.take(i + 1) =~= list@.take(i as int).push(list@[i as int]));
        i = i + 1;
    }
    assert(list@.take(i as int) =~= list@);
    out
}

/// A copy of an optional text.
pub fn clone_opt(o: &Option<String>) -> (r: Option<String>)
    ensures
        r == *o,
{
    match o {
        Some(s) => Some(s.clone()),
        None => None,
    }
}

/// The texts of `list` one after the other, with `sep` between any two.
pub open spec fn joined(list: Seq<Seq<char>>, sep: Seq<char>) -> Seq<char>
    decreases list.len(),
{
    if list.len() == 0 {
        seq![]
    } else if list.len() == 1 {
        list[0]
    } else {
        joined(list.drop_last(), sep) + sep + list.last()
    }
}

/// Joins the texts of `list` with `sep`.
pub fn join(list: &Vec<String>, sep: &str) -> (r: String)
    ensures
        r@ == joined(views(list@), sep@),
{
    let mut out = String::new();
    let mut i: usize = 0;
    while i < list.len()
        invariant
            i <= list@.len(),
            out@ == joined(views(list@).take(i as int), sep@),
        decreases list.len() - i,
    {
        if i > 0 {
            out.append(sep);
        }
        out.append(&list[i]);
        proof {
            let next = views(list@).take(i + 1);
            assert(next.drop_last() =~= views(list@).take(i as int));
            assert(next.last() == list@[i as int]@);
            if i == 0 {
                assert(next[0] == list@[0]@);
                assert(out@ =~= next[0]);
            }
        }
        i = i + 1;
    }
    assert(views(list@).take(i as int) =~= views(list@));
    out
}

/// The texts of `list` without repetitions, each where it stands first.
pub open spec fn distinct_texts(list: Seq<Seq<char>>) -> Seq<Seq<char>>
    decreases list.len(),
{
    if list.len() == 0 {
        seq![]
    } else {
        let before = distinct_texts(list.drop_last());
        if before.contains(list.last()) {
            before
        } else {
            before.push(list.last())
        }
    }
}

/// Puts a text behind a list unless the list holds it already.
pub fn push_distinct(list: &mut Vec<String>, t: &str) -> (r: bool)
    ensures
        r == !views(old(list)@).contains(t@),
        views(final(list)@) == if r {
            views(old(list)@).push(t@)
        } else {
            views(old(list)@)
        },
{
    if holds(list, t) {
        return false;
    }
    let ghost before = list@;
    list.push(t.to_string());
    assert(views(list@) =~= views(before).push(t@));
    true
}

/// What `distinct_texts` keeps: every text once, and nothing else.
pub proof fn distinct_texts_are_those(list: Seq<Seq<char>>)
    ensures
        distinct_texts(list).no_duplicates(),
        forall|t: Seq<char>| distinct_texts(list).contains(t) <==> #[trigger] list.contains(t),
    decreases list.len(),
{
    if list.len() > 0 {
        let before = list.drop_last();
        distinct_texts_are_those(before);
        assert forall|t: Seq<char>| distinct_texts(list).contains(t) <==> #[trigger] list.contains(t) by {
            assert(list =~= before.push(list.last()));
            assert(list.contains(t) <==> before.contains(t) || t == list.last());
        }
    }
}

/// Texts are joined in their order, with the separator between each two.
pub proof fn joining_puts_texts_in_line(a: Seq<Seq<char>>, b: Seq<Seq<char>>, one: Seq<char>, sep: Seq<char>)
    ensures
        joined(Seq::empty(), sep).len() == 0,
        joined(seq![one], sep) == one,
        a.len() > 0 && b.len() > 0 ==> joined(a + b, sep) == joined(a, sep) + sep + joined(b, sep),
    decreases b.len(),
{
    if a.len() > 0 && b.len() > 0 {
        let before = b.drop_last();
        assert((a + b).drop_last() =~= a + before);
        if b.len() == 1 {
            assert(a + before =~= a);
        } else {
            joining_puts_texts_in_line(a, before, one, sep);
        }
        assert(joined(a + b, sep) =~= joined(a, sep) + sep + joined(b, sep));
    }
}

/// Each text stands where it came first: it is kept exactly where no earlier text is
/// the same.
pub proof fn texts_stand_where_they_came_first(list: Seq<Seq<char>>) -> (places: Seq<int>)
    ensures
        distinct_texts(list) == Seq::new(places.len(), |i: int| list[places[i]]),
        forall|i: int| 0 <= i < places.len() ==> 0 <= (#[trigger] places[i]) < list.len(),
        forall|i: int, j: int| 0 <= i < j < places.len() ==> (#[trigger] places[i]) < (#[trigger] places[j]),
        forall|k: int|
            0 <= k < list.len() ==> (#[trigger] places.contains(k) <==> forall|j: int|
                0 <= j < k ==> #[trigger] list[j] != list[k]),
    decreases list.len(),
{
    if list.len() == 0 {
        let places = Seq::<int>::empty();
        assert(distinct_texts(list) =~= Seq::new(places.len(), |i: int| list[places[i]]));
        places
    } else {
        let before = list.drop_last();
        let n = before.len() as int;
        let f = texts_stand_where_they_came_first(before);
        distinct_texts_are_those(before);
        let known = distinct_texts(before).contains(list.last());
        let places = if known {
            f
        } else {
            f.push(n)
        };
        assert(distinct_texts(list) =~= Seq::new(places.len(), |i: int| list[places[i]]));
        assert(known <==> before.contains(list.last()));
        assert forall|k: int| 0 <= k < list.len() implies (#[trigger] places.contains(k) <==> forall|j: int|
            0 <= j < k ==> #[trigger] list[j] != list[k]) by {
            if k < n {
                assert(before[k] == list[k]);
                assert(forall|j: int| 0 <= j < k ==> before[j] == #[trigger] list[j]);
                assert(forall|j: int| 0 <= j < k ==> #[trigger] before[j] == list[j]);
                assert(f.contains(k) <==> places.contains(k)) by {
                    if f.contains(k) {
                        let i = choose|i: int| 0 <= i < f.len() && f[i] == k;
                        assert(places[i] == k);
                    }
                    if places.contains(k) {
                        let i = choose|i: int| 0 <= i < places.len() && places[i] == k;
                        assert(i < f.len());
                        assert(f[i] == k);
                    }
                }
            } else {
                assert(places.contains(n) <==> !known) by {
                    if !known {
                        assert(places[f.len() as int] == n);
                    } else if places.contains(n) {
                        let i = choose|i: int| 0 <= i < f.len() && f[i] == n;
                        assert(f[i] < n);
                    }
                }
                if known {
                    let j = choose|j: int| 0 <= j < before.len() && before[j] == list.last();
                    assert(list[j] == list[k]);
                } else {
                    assert forall|j: int| 0 <= j < k implies #[trigger] list[j] != list[k] by {
                        assert(before[j] == list[j]);
                    }
                }
            }
        }
        places
    }
}

/// Raising the case of a text of ASCII, letter by letter, gives each small letter its
/// capital and leaves the rest; lowering does the reverse. Neither changes the length.
pub proof fn cases_go_letter_by_letter(s: Seq<char>, i: int)
    requires
        0 <= i < s.len(),
        forall|k: int| 0 <= k < s.len() ==> is_ascii(#[trigger] s[k]),
    ensures
        uppercase(s).len() == s.len() == lowercase(s).len(),
        'a' <= s[i] <= 'z' ==> uppercase(s)[i] as int == s[i] as int - 32 && lowercase(s)[i] == s[i],
        'A' <= s[i] <= 'Z' ==> lowercase(s)[i] as int == s[i] as int + 32 && uppercase(s)[i] == s[i],
        !('a' <= s[i] <= 'z') && !('A' <= s[i] <= 'Z') ==> uppercase(s)[i] == s[i] && lowercase(s)[i] == s[i],
{
    assert(is_common(s));
}

/// Texts that come later displace none: the distinct texts of a list come first among
/// those of the list and any others behind it.
pub proof fn later_texts_displace_none(a: Seq<Seq<char>>, b: Seq<Seq<char>>)
    ensures
        distinct_texts(a).is_prefix_of(distinct_texts(a + b)),
    decreases b.len(),
{
    let first = distinct_texts(a);
    if b.len() == 0 {
        assert(a + b =~= a);
        assert(first.take(first.len() as int) =~= first);
    } else {
        later_texts_displace_none(a, b.drop_last());
        assert((a + b).drop_last() =~= a + b.drop_last());
        let before = distinct_texts(a + b.drop_last());
        let all = distinct_texts(a + b);
        assert(all == before || all == before.push(b.last()));
        assert(all.take(first.len() as int) =~= before.take(first.len() as int));
    }
}

} // verus!
