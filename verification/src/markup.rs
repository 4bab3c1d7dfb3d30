//! The shape of a feed's bytes: whether they can be handed to the feed parser.
//!
//! The parser fails hard on some bytes. It counts the levels of nesting in
//! sixteen bits; it descends through nested media elements and categories; it
//! reads play times, in the elements `duration` and in the attributes `start`,
//! `end` and `time`, as numbers that have to fit. Bytes that keep clear of this
//! are tame. The bytes are walked as the parser's reader of markup walks them, but
//! elements are told by their names alone, whatever their namespace and wherever
//! they stand. So more is refused than can make the parser fail: only bytes,
//! though, that hold an odd play time, or nest further than any feed does.

use crate::number::digits_value;
use crate::text::chars_of;
use vstd::prelude::*;

verus! {

broadcast use vstd::seq_lib::group_seq_properties;

/// How many levels of elements the parser can count.
pub const MAX_LEVEL: usize = 65_535;

/// How many elements that the parser descends through may be nested. Each takes
/// a part of the stack, and how large that is, is up to the machine.
pub const MAX_NESTED: usize = 100;

/// The name of the namespace with the play times of podcasts.
pub const PODCAST_NAME: &'static str = "http://www.itunes.com/dtds/podcast-1.0.dtd";

/// The name of the namespace with the play times of media.
pub const MEDIA_NAME: &'static str = "http://search.yahoo.com/mrss/";

/// `<`
pub const LESS: u8 = 0x3c;

/// `>`
pub const GREATER: u8 = 0x3e;

/// `!`
pub const BANG: u8 = 0x21;

/// `?`
pub const QUESTION: u8 = 0x3f;

/// `/`
pub const SLASH: u8 = 0x2f;

/// `{`
pub const BRACE: u8 = 0x7b;

/// `[`
pub const BRACKET: u8 = 0x5b;

/// `]`
pub const BRACKET_END: u8 = 0x5d;

/// `&`
pub const AMPERSAND: u8 = 0x26;

/// `#`
pub const HASH: u8 = 0x23;

/// `:`
pub const COLON: u8 = 0x3a;

/// `"`
pub const DOUBLE_QUOTE: u8 = 0x22;

/// `'`
pub const SINGLE_QUOTE: u8 = 0x27;

/// The escape character, which switches the character set in some encodings.
pub const ESCAPE: u8 = 0x1b;

// ---------------------------------------------------------------------------
// Finding
// ---------------------------------------------------------------------------

/// Whether a text stands at a place of the bytes.
pub open spec fn stands_at(b: Seq<u8>, i: int, t: Seq<char>) -> bool {
    &&& 0 <= i
    &&& i + t.len() <= b.len()
    &&& forall|k: int| 0 <= k < t.len() ==> b[i + k] as char == #[trigger] t[k]
}

/// Decides `stands_at`.
fn check_at(b: &Vec<u8>, i: usize, t: &str) -> (r: bool)
    requires
        i <= b@.len(),
    ensures
        r == stands_at(b@, i as int, t@),
{
    let chars = chars_of(t);
    let n: usize = b.len();
    if chars.len() > n - i {
        return false;
    }
    let mut k: usize = 0;
    while k < chars.len()
        invariant
            k <= chars@.len(),
            chars@ == t@,
            n == b@.len(),
            i + chars@.len() <= n,
            forall|j: int| 0 <= j < k ==> b@[i + j] as char == #[trigger] t@[j],
        decreases chars.len() - k,
    {
        if b[i + k] as char != chars[k] {
            assert(b@[i + k] as char != t@[k as int]);
            return false;
        }
        k = k + 1;
    }
    true
}

/// The first place from `i` on where a text stands.
pub open spec fn place_of(b: Seq<u8>, i: int, t: Seq<char>) -> Option<int>
    decreases b.len() - i,
{
    if i < 0 || i >= b.len() {
        None
    } else if stands_at(b, i, t) {
        Some(i)
    } else {
        place_of(b, i + 1, t)
    }
}

/// Finds the first place from `i` on where a text stands.
fn find(b: &Vec<u8>, i: usize, t: &str) -> (r: Option<usize>)
    requires
        i <= b@.len(),
    ensures
        match r {
            Some(p) => place_of(b@, i as int, t@) == Some(p as int) && i <= p < b@.len() && stands_at(
                b@,
                p as int,
                t@,
            ),
            None => place_of(b@, i as int, t@) is None,
        },
{
    let mut p: usize = i;
    while p < b.len()
        invariant
            i <= p <= b@.len(),
            place_of(b@, i as int, t@) == place_of(b@, p as int, t@),
        decreases b.len() - p,
    {
        if check_at(b, p, t) {
            return Some(p);
        }
        p = p + 1;
    }
    None
}

/// The first place from `i` on that holds the byte.
pub open spec fn byte_at(b: Seq<u8>, i: int, c: u8) -> Option<int>
    decreases b.len() - i,
{
    if i < 0 || i >= b.len() {
        None
    } else if b[i] == c {
        Some(i)
    } else {
        byte_at(b, i + 1, c)
    }
}

/// Finds a byte.
fn find_byte(b: &Vec<u8>, i: usize, c: u8) -> (r: Option<usize>)
    requires
        i <= b@.len(),
    ensures
        match r {
            Some(p) => byte_at(b@, i as int, c) == Some(p as int) && i <= p < b@.len() && b@[p as int] == c,
            None => byte_at(b@, i as int, c) is None,
        },
{
    let mut p: usize = i;
    while p < b.len()
        invariant
            i <= p <= b@.len(),
            byte_at(b@, i as int, c) == byte_at(b@, p as int, c),
        decreases b.len() - p,
    {
        if b[p] == c {
            return Some(p);
        }
        p = p + 1;
    }
    None
}

/// Whether a byte is a blank in markup.
pub open spec fn is_blank(c: u8) -> bool {
    c == 0x20 || c == 0x09 || c == 0x0a || c == 0x0d
}

/// The first place from `i` on, up to `end`, that holds no blank.
pub open spec fn behind_blanks(b: Seq<u8>, i: int, end: int) -> int
    decreases end - i,
{
    if 0 <= i < end && end <= b.len() && is_blank(b[i]) {
        behind_blanks(b, i + 1, end)
    } else {
        i
    }
}

/// Skips blanks.
fn skip_blanks(b: &Vec<u8>, i: usize) -> (r: usize)
    requires
        i <= b@.len(),
    ensures
        r == behind_blanks(b@, i as int, b@.len() as int),
        i <= r <= b@.len(),
{
    let mut p: usize = i;
    while p < b.len() && (b[p] == 0x20 || b[p] == 0x09 || b[p] == 0x0a || b[p] == 0x0d)
        invariant
            i <= p <= b@.len(),
            behind_blanks(b@, i as int, b@.len() as int) == behind_blanks(b@, p as int, b@.len() as int),
        decreases b.len() - p,
    {
        p = p + 1;
    }
    p
}

/// The end of the name that starts at `i`: the first blank before `end`, or else `end`.
pub open spec fn name_end(b: Seq<u8>, i: int, end: int) -> int
    decreases end - i,
{
    if 0 <= i < end && end <= b.len() && !is_blank(b[i]) {
        name_end(b, i + 1, end)
    } else {
        i
    }
}

/// Finds the end of a name.
fn find_name_end(b: &Vec<u8>, i: usize, end: usize) -> (r: usize)
    requires
        i <= end <= b@.len(),
    ensures
        r == name_end(b@, i as int, end as int),
        i <= r <= end,
{
    let mut p: usize = i;
    while p < end && !(b[p] == 0x20 || b[p] == 0x09 || b[p] == 0x0a || b[p] == 0x0d)
        invariant
            i <= p <= end <= b@.len(),
            name_end(b@, i as int, end as int) == name_end(b@, p as int, end as int),
        decreases end - p,
    {
        p = p + 1;
    }
    p
}

/// The end of what stands before the blanks in front of `end`.
pub open spec fn before_blanks(b: Seq<u8>, i: int, end: int) -> int
    decreases end - i,
{
    if 0 <= i < end && end <= b.len() && is_blank(b[end - 1]) {
        before_blanks(b, i, end - 1)
    } else {
        end
    }
}

/// Drops blanks at the end.
fn drop_blanks(b: &Vec<u8>, i: usize, end: usize) -> (r: usize)
    requires
        i <= end <= b@.len(),
    ensures
        r == before_blanks(b@, i as int, end as int),
        i <= r <= end,
{
    let mut p: usize = end;
    while p > i && (b[p - 1] == 0x20 || b[p - 1] == 0x09 || b[p - 1] == 0x0a || b[p - 1] == 0x0d)
        invariant
            i <= p <= end <= b@.len(),
            before_blanks(b@, i as int, end as int) == before_blanks(b@, i as int, p as int),
        decreases p - i,
    {
        p = p - 1;
    }
    p
}

/// The place of the `>` that closes a tag: the first from `i` on outside of
/// quotes. `quote` is the quote that is open at `i`, zero if there is none.
pub open spec fn tag_end(b: Seq<u8>, i: int, quote: u8) -> Option<int>
    decreases b.len() - i,
{
    if i < 0 || i >= b.len() {
        None
    } else if quote == 0 {
        if b[i] == GREATER {
            Some(i)
        } else if b[i] == DOUBLE_QUOTE || b[i] == SINGLE_QUOTE {
            tag_end(b, i + 1, b[i])
        } else {
            tag_end(b, i + 1, 0)
        }
    } else if b[i] == quote {
        tag_end(b, i + 1, 0)
    } else {
        tag_end(b, i + 1, quote)
    }
}

/// Finds the end of a tag.
fn find_tag_end(b: &Vec<u8>, i: usize) -> (r: Option<usize>)
    requires
        i <= b@.len(),
    ensures
        match r {
            Some(p) => tag_end(b@, i as int, 0) == Some(p as int) && i <= p < b@.len() && b@[p as int] == GREATER,
            None => tag_end(b@, i as int, 0) is None,
        },
{
    let mut quote: u8 = 0;
    let mut p: usize = i;
    while p < b.len()
        invariant
            i <= p <= b@.len(),
            tag_end(b@, i as int, 0) == tag_end(b@, p as int, quote),
        decreases b.len() - p,
    {
        if quote == 0 {
            if b[p] == GREATER {
                return Some(p);
            }
            if b[p] == DOUBLE_QUOTE || b[p] == SINGLE_QUOTE {
                quote = b[p];
            }
        } else if b[p] == quote {
            quote = 0;
        }
        p = p + 1;
    }
    None
}

/// Where a declaration of a document type ends that starts at `i`, at its last
/// byte. Quotes count in declarations of entities, attributes and notations.
pub open spec fn declaration_end(b: Seq<u8>, i: int) -> Option<int> {
    if stands_at(b, i, "<?"@) {
        match place_of(b, i + 2, "?>"@) {
            Some(p) => Some(p + 1),
            None => None,
        }
    } else if stands_at(b, i, "<!--"@) {
        match place_of(b, i + 4, "-->"@) {
            Some(p) => Some(p + 2),
            None => None,
        }
    } else if stands_at(b, i, "<!ENTITY"@) {
        tag_end(b, i + 8, 0)
    } else if stands_at(b, i, "<!ATTLIST"@) {
        tag_end(b, i + 9, 0)
    } else if stands_at(b, i, "<!NOTATION"@) {
        tag_end(b, i + 10, 0)
    } else {
        byte_at(b, i + 1, GREATER)
    }
}

/// Finds the end of a declaration.
fn find_declaration_end(b: &Vec<u8>, i: usize) -> (r: Option<usize>)
    requires
        i < b@.len(),
    ensures
        match r {
            Some(p) => declaration_end(b@, i as int) == Some(p as int) && i < p < b@.len(),
            None => declaration_end(b@, i as int) is None,
        },
{
    proof {
        reveal_strlit("<?");
        reveal_strlit("?>");
        reveal_strlit("<!--");
        reveal_strlit("-->");
        reveal_strlit("<!ENTITY");
        reveal_strlit("<!ATTLIST");
        reveal_strlit("<!NOTATION");
    }
    assert(b.len() == b@.len());
    if check_at(b, i, "<?") {
        return match find(b, i + 2, "?>") {
            Some(p) => Some(p + 1),
            None => None,
        };
    }
    if check_at(b, i, "<!--") {
        return match find(b, i + 4, "-->") {
            Some(p) => Some(p + 2),
            None => None,
        };
    }
    if check_at(b, i, "<!ENTITY") {
        return find_tag_end(b, i + 8);
    }
    if check_at(b, i, "<!ATTLIST") {
        return find_tag_end(b, i + 9);
    }
    if check_at(b, i, "<!NOTATION") {
        return find_tag_end(b, i + 10);
    }
    find_byte(b, i + 1, GREATER)
}

/// The place of the `>` that closes a document type, from a place among its own
/// declarations on: behind the bracket that ends them.
pub open spec fn subset_end(b: Seq<u8>, i: int) -> Option<int>
    decreases b.len() - i,
{
    if i < 0 || i >= b.len() {
        None
    } else if b[i] == BRACKET_END {
        byte_at(b, i + 1, GREATER)
    } else if b[i] == LESS {
        match declaration_end(b, i) {
            Some(p) => if i < p && p < b.len() {
                subset_end(b, p + 1)
            } else {
                None
            },
            None => None,
        }
    } else {
        subset_end(b, i + 1)
    }
}

/// Finds the end of a document type from among its declarations on.
fn find_subset_end(b: &Vec<u8>, i: usize) -> (r: Option<usize>)
    requires
        i <= b@.len(),
    ensures
        match r {
            Some(p) => subset_end(b@, i as int) == Some(p as int) && i <= p < b@.len(),
            None => subset_end(b@, i as int) is None,
        },
{
    let mut p: usize = i;
    while p < b.len()
        invariant
            i <= p <= b@.len(),
            subset_end(b@, i as int) == subset_end(b@, p as int),
        decreases b.len() - p,
    {
        if b[p] == BRACKET_END {
            return find_byte(b, p + 1, GREATER);
        }
        if b[p] == LESS {
            match find_declaration_end(b, p) {
                Some(q) => {
                    p = q + 1;
                },
                None => {
                    return None;
                },
            }
        } else {
            p = p + 1;
        }
    }
    None
}

/// Whether a word stands at a place of the bytes, in capitals or not.
pub open spec fn stands_uncased(b: Seq<u8>, i: int, t: Seq<char>) -> bool {
    &&& 0 <= i
    &&& i + t.len() <= b.len()
    &&& forall|k: int| 0 <= k < t.len() ==> same_letter(b[i + k], #[trigger] t[k])
}

/// Whether a byte is a capital letter, or its small form.
pub open spec fn same_letter(c: u8, t: char) -> bool {
    c as char == t || (c >= 0x61 && (c - 0x20) as u8 as char == t)
}

/// Decides `stands_uncased`.
fn check_uncased(b: &Vec<u8>, i: usize, t: &str) -> (r: bool)
    requires
        i <= b@.len(),
    ensures
        r == stands_uncased(b@, i as int, t@),
{
    let chars = chars_of(t);
    let n: usize = b.len();
    if chars.len() > n - i {
        return false;
    }
    let mut k: usize = 0;
    while k < chars.len()
        invariant
            k <= chars@.len(),
            chars@ == t@,
            n == b@.len(),
            i + chars@.len() <= n,
            forall|j: int| 0 <= j < k ==> same_letter(b@[i + j], #[trigger] t@[j]),
        decreases chars.len() - k,
    {
        let c: u8 = b[i + k];
        if !(c as char == chars[k] || (c >= 0x61 && (c - 0x20) as char == chars[k])) {
            assert(!same_letter(b@[i + k], t@[k as int]));
            return false;
        }
        k = k + 1;
    }
    true
}

/// The place of the `>` that closes a document type: the first from `i` on
/// outside of quotes, or the one behind its declarations. `quote` is the quote
/// that is open at `i`, zero if there is none.
pub open spec fn doctype_end(b: Seq<u8>, i: int, quote: u8) -> Option<int>
    decreases b.len() - i,
{
    if i < 0 || i >= b.len() {
        None
    } else if quote == 0 {
        if b[i] == GREATER {
            Some(i)
        } else if b[i] == BRACKET {
            subset_end(b, i + 1)
        } else if b[i] == DOUBLE_QUOTE || b[i] == SINGLE_QUOTE {
            doctype_end(b, i + 1, b[i])
        } else {
            doctype_end(b, i + 1, 0)
        }
    } else if b[i] == quote {
        doctype_end(b, i + 1, 0)
    } else {
        doctype_end(b, i + 1, quote)
    }
}

/// Finds the end of a document type.
fn find_doctype_end(b: &Vec<u8>, i: usize) -> (r: Option<usize>)
    requires
        i <= b@.len(),
    ensures
        match r {
            Some(p) => doctype_end(b@, i as int, 0) == Some(p as int) && i <= p < b@.len(),
            None => doctype_end(b@, i as int, 0) is None,
        },
{
    let mut quote: u8 = 0;
    let mut p: usize = i;
    while p < b.len()
        invariant
            i <= p <= b@.len(),
            doctype_end(b@, i as int, 0) == doctype_end(b@, p as int, quote),
        decreases b.len() - p,
    {
        if quote == 0 {
            if b[p] == GREATER {
                return Some(p);
            }
            if b[p] == BRACKET {
                return find_subset_end(b, p + 1);
            }
            if b[p] == DOUBLE_QUOTE || b[p] == SINGLE_QUOTE {
                quote = b[p];
            }
        } else if b[p] == quote {
            quote = 0;
        }
        p = p + 1;
    }
    None
}

/// Whether a byte occurs from `i` on before `end`.
pub open spec fn occurs(b: Seq<u8>, c: u8, i: int, end: int) -> bool {
    exists|k: int| i <= k < end && #[trigger] b[k] == c
}

/// Decides `occurs`.
fn has_byte(b: &Vec<u8>, c: u8, i: usize, end: usize) -> (r: bool)
    requires
        i <= end <= b@.len(),
    ensures
        r == occurs(b@, c, i as int, end as int),
{
    let mut p: usize = i;
    while p < end
        invariant
            i <= p <= end <= b@.len(),
            forall|k: int| i <= k < p ==> #[trigger] b@[k] != c,
        decreases end - p,
    {
        if b[p] == c {
            return true;
        }
        p = p + 1;
    }
    false
}

// ---------------------------------------------------------------------------
// The pieces of markup
// ---------------------------------------------------------------------------

/// A piece of markup, with the places where it, or what counts of it, starts and ends.
pub enum Piece {
    /// Text, or a section of plain characters.
    Text { from: usize, to: usize },
    /// A comment, an instruction or a document type.
    Aside,
    /// The start of an element with the name from `from` to `to`; its tag ends at `end`.
    Opening { from: usize, to: usize, end: usize, empty: bool },
    /// The end of an element with that name.
    Closing { from: usize, to: usize },
}

/// What a piece is.
pub enum PieceView {
    Text { from: int, to: int },
    Aside,
    Opening { from: int, to: int, end: int, empty: bool },
    Closing { from: int, to: int },
}

impl View for Piece {
    type V = PieceView;

    open spec fn view(&self) -> PieceView {
        match self {
            Piece::Text { from, to } => PieceView::Text { from: *from as int, to: *to as int },
            Piece::Aside => PieceView::Aside,
            Piece::Opening { from, to, end, empty } => PieceView::Opening {
                from: *from as int,
                to: *to as int,
                end: *end as int,
                empty: *empty,
            },
            Piece::Closing { from, to } => PieceView::Closing { from: *from as int, to: *to as int },
        }
    }
}

/// The piece that starts with `<!` at a place, and where the next one starts.
pub open spec fn bang_at(b: Seq<u8>, i: int) -> Option<(PieceView, int)> {
    if stands_at(b, i, "<!--"@) {
        match place_of(b, i + 4, "-->"@) {
            Some(p) => Some((PieceView::Aside, p + 3)),
            None => None,
        }
    } else if stands_at(b, i, "<![CDATA["@) {
        match place_of(b, i + 9, "]]>"@) {
            Some(p) => Some((PieceView::Text { from: i + 9, to: p }, p + 3)),
            None => None,
        }
    } else if stands_uncased(b, i + 2, "DOCTYPE"@) {
        match doctype_end(b, i + 9, 0) {
            Some(p) => Some((PieceView::Aside, p + 1)),
            None => None,
        }
    } else {
        None
    }
}

/// The piece at a place, and where the next one starts. None where the reader
/// stops for good: at what is left open, at an empty instruction and at a
/// declaration that it does not know.
pub open spec fn piece_at(b: Seq<u8>, i: int) -> Option<(PieceView, int)> {
    if b[i] != LESS {
        let to = match byte_at(b, i, LESS) {
            Some(p) => p,
            None => b.len() as int,
        };
        Some((PieceView::Text { from: i, to }, to))
    } else if i + 1 >= b.len() {
        None
    } else if b[i + 1] == BANG {
        bang_at(b, i)
    } else if b[i + 1] == QUESTION {
        match place_of(b, i + 1, "?>"@) {
            Some(p) => if p == i + 1 {
                None
            } else {
                Some((PieceView::Aside, p + 2))
            },
            None => None,
        }
    } else {
        match tag_end(b, i + 1, 0) {
            Some(p) => if b[i + 1] == SLASH {
                Some((PieceView::Closing { from: i + 2, to: before_blanks(b, i + 2, p) }, p + 1))
            } else {
                let empty = p > i + 1 && b[p - 1] == SLASH;
                let stop = if empty {
                    p - 1
                } else {
                    p
                };
                Some((PieceView::Opening { from: i + 1, to: name_end(b, i + 1, stop), end: p, empty }, p + 1))
            },
            None => None,
        }
    }
}

/// Whether a piece lies in the bytes.
pub open spec fn lies_in(p: PieceView, n: int) -> bool {
    match p {
        PieceView::Text { from, to } => 0 <= from <= to <= n,
        PieceView::Aside => true,
        PieceView::Opening { from, to, end, .. } => 0 <= from <= to <= end < n,
        PieceView::Closing { from, to } => 0 <= from <= to <= n,
    }
}

/// Reads the piece that starts with `<!` at a place.
fn read_bang(b: &Vec<u8>, i: usize) -> (r: Option<(Piece, usize)>)
    requires
        i + 2 <= b@.len(),
    ensures
        match r {
            Some(x) => bang_at(b@, i as int) == Some((x.0@, x.1 as int)) && i < x.1 <= b@.len() && lies_in(
                x.0@,
                b@.len() as int,
            ),
            None => bang_at(b@, i as int) is None,
        },
{
    proof {
        reveal_strlit("<!--");
        reveal_strlit("-->");
        reveal_strlit("<![CDATA[");
        reveal_strlit("]]>");
        reveal_strlit("DOCTYPE");
    }
    assert(b.len() == b@.len());
    if check_at(b, i, "<!--") {
        return match find(b, i + 4, "-->") {
            Some(p) => Some((Piece::Aside, p + 3)),
            None => None,
        };
    }
    if check_at(b, i, "<![CDATA[") {
        return match find(b, i + 9, "]]>") {
            Some(p) => Some((Piece::Text { from: i + 9, to: p }, p + 3)),
            None => None,
        };
    }
    if check_uncased(b, i + 2, "DOCTYPE") {
        return match find_doctype_end(b, i + 9) {
            Some(p) => Some((Piece::Aside, p + 1)),
            None => None,
        };
    }
    None
}

/// Reads the piece at a place.
fn read_piece(b: &Vec<u8>, i: usize) -> (r: Option<(Piece, usize)>)
    requires
        i < b@.len(),
    ensures
        match r {
            Some(x) => piece_at(b@, i as int) == Some((x.0@, x.1 as int)) && i < x.1 <= b@.len() && lies_in(
                x.0@,
                b@.len() as int,
            ),
            None => piece_at(b@, i as int) is None,
        },
{
    proof {
        reveal_strlit("?>");
    }
    let n: usize = b.len();
    if b[i] != LESS {
        return match find_byte(b, i, LESS) {
            Some(p) => Some((Piece::Text { from: i, to: p }, p)),
            None => Some((Piece::Text { from: i, to: n }, n)),
        };
    }
    if i + 1 >= n {
        return None;
    }
    if b[i + 1] == BANG {
        return read_bang(b, i);
    }
    if b[i + 1] == QUESTION {
        return match find(b, i + 1, "?>") {
            Some(p) => if p == i + 1 {
                None
            } else {
                Some((Piece::Aside, p + 2))
            },
            None => None,
        };
    }
    match find_tag_end(b, i + 1) {
        Some(p) => if b[i + 1] == SLASH {
            let to: usize = drop_blanks(b, i + 2, p);
            Some((Piece::Closing { from: i + 2, to }, p + 1))
        } else {
            let empty = p > i + 1 && b[p - 1] == SLASH;
            let stop: usize = if empty {
                p - 1
            } else {
                p
            };
            let to: usize = find_name_end(b, i + 1, stop);
            Some((Piece::Opening { from: i + 1, to, end: p, empty }, p + 1))
        },
        None => None,
    }
}

// ---------------------------------------------------------------------------
// Play times
// ---------------------------------------------------------------------------

/// Whether a byte is a decimal digit.
pub open spec fn is_digit(c: u8) -> bool {
    0x30 <= c <= 0x39
}

/// Decides `is_digit`.
fn check_digit(c: u8) -> (r: bool)
    ensures
        r == is_digit(c),
{
    0x30 <= c && c <= 0x39
}

/// The number that the digits from `from` on before `to` make.
pub open spec fn number_of(t: Seq<u8>, from: int, to: int) -> nat
    decreases to - from,
{
    if from >= to {
        0
    } else {
        number_of(t, from, to - 1) * 10 + (t[to - 1] - 0x30) as nat
    }
}

/// A longer number is no smaller.
proof fn lemma_number_grows(t: Seq<u8>, from: int, p: int, to: int)
    requires
        p <= to,
    ensures
        number_of(t, from, p) <= number_of(t, from, to),
    decreases to - p,
{
    if p < to {
        lemma_number_grows(t, from, p, to - 1);
    }
}

/// Reads a number; none where it does not fit.
fn read_number(t: &Vec<u8>, from: usize, to: usize) -> (r: Option<u64>)
    requires
        from <= to <= t@.len(),
        forall|k: int| from <= k < to ==> is_digit(#[trigger] t@[k]),
    ensures
        match r {
            Some(n) => n == number_of(t@, from as int, to as int),
            None => number_of(t@, from as int, to as int) > u64::MAX,
        },
{
    let mut n: u64 = 0;
    let mut p: usize = from;
    while p < to
        invariant
            from <= p <= to <= t@.len(),
            forall|k: int| from <= k < to ==> is_digit(#[trigger] t@[k]),
            n == number_of(t@, from as int, p as int),
        decreases to - p,
    {
        assert(is_digit(t@[p as int]));
        let next: u128 = (n as u128) * 10 + (t[p] - 0x30) as u128;
        assert(next == number_of(t@, from as int, p + 1));
        if next > 0xffff_ffff_ffff_ffff {
            proof {
                lemma_number_grows(t@, from as int, p + 1, to as int);
            }
            return None;
        }
        n = next as u64;
        p = p + 1;
    }
    Some(n)
}

/// Where the digits end that stand from `i` on.
pub open spec fn run_end(t: Seq<u8>, i: int) -> int
    decreases t.len() - i,
{
    if 0 <= i < t.len() && is_digit(t[i]) {
        run_end(t, i + 1)
    } else {
        i
    }
}

/// Finds the end of a run of digits.
fn find_run_end(t: &Vec<u8>, i: usize) -> (r: usize)
    requires
        i <= t@.len(),
    ensures
        r == run_end(t@, i as int),
        i <= r <= t@.len(),
        i < t@.len() && is_digit(t@[i as int]) ==> i < r,
        forall|k: int| i <= k < r ==> is_digit(#[trigger] t@[k]),
{
    let mut p: usize = i;
    while p < t.len() && check_digit(t[p])
        invariant
            i <= p <= t@.len(),
            run_end(t@, i as int) == run_end(t@, p as int),
            forall|k: int| i <= k < p ==> is_digit(#[trigger] t@[k]),
        decreases t.len() - p,
    {
        p = p + 1;
    }
    p
}

/// Whether minutes and seconds of two digits each stand at a place, with colons before them.
pub open spec fn shows_minutes(t: Seq<u8>, j: int) -> bool {
    &&& 0 <= j
    &&& j + 6 <= t.len()
    &&& t[j] == COLON
    &&& is_digit(t[j + 1])
    &&& is_digit(t[j + 2])
    &&& t[j + 3] == COLON
    &&& is_digit(t[j + 4])
    &&& is_digit(t[j + 5])
}

/// Decides `shows_minutes`.
fn check_minutes(t: &Vec<u8>, j: usize) -> (r: bool)
    requires
        j <= t@.len(),
    ensures
        r == shows_minutes(t@, j as int),
{
    let n: usize = t.len();
    n - j >= 6 && t[j] == COLON && check_digit(t[j + 1]) && check_digit(t[j + 2]) && t[j + 3] == COLON && check_digit(
        t[j + 4],
    ) && check_digit(t[j + 5])
}

/// The first place from `i` on where hours with minutes and seconds start.
pub open spec fn clock_at(t: Seq<u8>, i: int) -> Option<int>
    decreases t.len() - i,
{
    if i < 0 || i >= t.len() {
        None
    } else if !is_digit(t[i]) {
        clock_at(t, i + 1)
    } else if shows_minutes(t, run_end(t, i)) {
        Some(i)
    } else if i < run_end(t, i) <= t.len() {
        clock_at(t, run_end(t, i))
    } else {
        None
    }
}

/// Finds hours with minutes and seconds.
fn find_clock(t: &Vec<u8>) -> (r: Option<usize>)
    ensures
        match r {
            Some(p) => clock_at(t@, 0) == Some(p as int) && p < t@.len() && is_digit(t@[p as int]) && shows_minutes(
                t@,
                run_end(t@, p as int),
            ),
            None => clock_at(t@, 0) is None,
        },
{
    let mut p: usize = 0;
    while p < t.len()
        invariant
            p <= t@.len(),
            clock_at(t@, 0) == clock_at(t@, p as int),
        decreases t.len() - p,
    {
        if !check_digit(t[p]) {
            p = p + 1;
        } else {
            let end: usize = find_run_end(t, p);
            if check_minutes(t, end) {
                return Some(p);
            }
            p = end;
        }
    }
    None
}

/// The first place from `i` on that holds a digit.
pub open spec fn digit_at(t: Seq<u8>, i: int) -> Option<int>
    decreases t.len() - i,
{
    if i < 0 || i >= t.len() {
        None
    } else if is_digit(t[i]) {
        Some(i)
    } else {
        digit_at(t, i + 1)
    }
}

/// Finds a digit.
fn find_digit(t: &Vec<u8>) -> (r: Option<usize>)
    ensures
        match r {
            Some(p) => digit_at(t@, 0) == Some(p as int) && p < t@.len() && is_digit(t@[p as int]),
            None => digit_at(t@, 0) is None,
        },
{
    let mut p: usize = 0;
    while p < t.len()
        invariant
            p <= t@.len(),
            digit_at(t@, 0) == digit_at(t@, p as int),
        decreases t.len() - p,
    {
        if check_digit(t[p]) {
            return Some(p);
        }
        p = p + 1;
    }
    None
}

/// How many whole seconds a play time is: hours, minutes and seconds, or seconds
/// alone. None where it holds no number.
pub open spec fn seconds_of(t: Seq<u8>) -> Option<nat> {
    match clock_at(t, 0) {
        Some(i) => {
            let j = run_end(t, i);
            Some(number_of(t, i, j) * 3600 + number_of(t, j + 1, j + 3) * 60 + number_of(t, j + 4, j + 6))
        },
        None => match digit_at(t, 0) {
            Some(i) => Some(number_of(t, i, run_end(t, i))),
            None => None,
        },
    }
}

/// Whether the seconds of a play time fit.
pub open spec fn seconds_fit(t: Seq<u8>) -> bool {
    seconds_of(t) is Some ==> seconds_of(t)->0 < u64::MAX
}

/// Decides `seconds_fit`.
fn check_seconds(t: &Vec<u8>) -> (r: bool)
    ensures
        r == seconds_fit(t@),
{
    assert(t.len() == t@.len());
    match find_clock(t) {
        Some(i) => {
            let j: usize = find_run_end(t, i);
            match (read_number(t, i, j), read_number(t, j + 1, j + 3), read_number(t, j + 4, j + 6)) {
                (Some(h), Some(m), Some(s)) => {
                    let n: u128 = (h as u128) * 3600 + (m as u128) * 60 + s as u128;
                    n < 0xffff_ffff_ffff_ffff
                },
                _ => false,
            }
        },
        None => match find_digit(t) {
            Some(i) => {
                let j: usize = find_run_end(t, i);
                match read_number(t, i, j) {
                    Some(n) => n < 0xffff_ffff_ffff_ffff,
                    None => false,
                }
            },
            None => true,
        },
    }
}

/// Whether a byte can be no part of a digit other than the plain ones. In UTF-8
/// these are the bytes of letters and signs below U+0640 and from U+2000 up to
/// U+9FFF; in other encodings every byte from 0x80 on may be part of a digit, and
/// the escape character may switch to others.
pub open spec fn is_plain(c: u8, utf8: bool) -> bool {
    if c < 0x80 {
        utf8 || c != ESCAPE
    } else {
        utf8 && (c < 0xc0 || 0xc2 <= c <= 0xd8 || 0xe2 <= c <= 0xe9)
    }
}

/// Whether a play time is written out: it holds no other digits, and no reference
/// to a character by its number.
pub open spec fn is_written_out(t: Seq<u8>, utf8: bool) -> bool {
    forall|k: int|
        0 <= k < t.len() ==> is_plain(#[trigger] t[k], utf8) && !(t[k] == AMPERSAND && k + 1 < t.len() && t[k + 1]
            == HASH)
}

/// Whether a play time fits.
pub open spec fn time_fits(t: Seq<u8>, utf8: bool) -> bool {
    is_written_out(t, utf8) && seconds_fit(t)
}

/// Decides `time_fits`.
fn check_time(t: &Vec<u8>, utf8: bool) -> (r: bool)
    ensures
        r == time_fits(t@, utf8),
{
    let n: usize = t.len();
    let mut k: usize = 0;
    while k < n
        invariant
            k <= n,
            n == t@.len(),
            forall|j: int|
                0 <= j < k ==> is_plain(#[trigger] t@[j], utf8) && !(t@[j] == AMPERSAND && j + 1 < t@.len() && t@[j + 1]
                    == HASH),
        decreases n - k,
    {
        let c: u8 = t[k];
        let plain: bool = if c < 0x80 {
            utf8 || c != ESCAPE
        } else {
            utf8 && (c < 0xc0 || (0xc2 <= c && c <= 0xd8) || (0xe2 <= c && c <= 0xe9))
        };
        if !plain || (c == AMPERSAND && k + 1 < n && t[k + 1] == HASH) {
            assert(!(is_plain(t@[k as int], utf8) && !(t@[k as int] == AMPERSAND && k + 1 < t@.len() && t@[k + 1]
                == HASH)));
            return false;
        }
        k = k + 1;
    }
    check_seconds(t)
}

/// Takes out a stretch of bytes.
fn cut_out(b: &Vec<u8>, from: usize, to: usize) -> (r: Vec<u8>)
    requires
        from <= to <= b@.len(),
    ensures
        r@ == b@.subrange(from as int, to as int),
{
    let mut out: Vec<u8> = Vec::new();
    extend(&mut out, b, from, to);
    out
}

/// Puts a stretch of bytes behind others.
fn extend(out: &mut Vec<u8>, b: &Vec<u8>, from: usize, to: usize)
    requires
        from <= to <= b@.len(),
    ensures
        final(out)@ == old(out)@ + b@.subrange(from as int, to as int),
{
    let ghost before = out@;
    let mut p: usize = from;
    while p < to
        invariant
            from <= p <= to <= b@.len(),
            out@ == before + b@.subrange(from as int, p as int),
        decreases to - p,
    {
        out.push(b[p]);
        assert(b@.subrange(from as int, p + 1) =~= b@.subrange(from as int, p as int).push(b@[p as int]));
        assert(out@ =~= before + b@.subrange(from as int, p + 1));
        p = p + 1;
    }
    assert(out@ =~= before + b@.subrange(from as int, to as int));
}

/// Whether a name is the given one, whatever its prefix.
pub open spec fn is_named(b: Seq<u8>, from: int, to: int, t: Seq<char>) -> bool {
    &&& to - from >= t.len()
    &&& stands_at(b, to - t.len(), t)
    &&& to - t.len() == from || b[to - t.len() - 1] == COLON
}

/// Decides `is_named`.
fn check_named(b: &Vec<u8>, from: usize, to: usize, t: &str, n: usize) -> (r: bool)
    requires
        from <= to <= b@.len(),
        n == t@.len(),
    ensures
        r == is_named(b@, from as int, to as int, t@),
{
    to - from >= n && check_at(b, to - n, t) && (to - n == from || b[to - n - 1] == COLON)
}

/// Where the value of an attribute starts whose name ends at `i`: behind an
/// equals sign and a quote, with blanks around the sign.
pub open spec fn value_start(b: Seq<u8>, i: int) -> Option<int> {
    let sign = behind_blanks(b, i, b.len() as int);
    if !stands_at(b, sign, "="@) {
        None
    } else {
        let start = behind_blanks(b, sign + 1, b.len() as int);
        if start < b.len() && (b[start] == DOUBLE_QUOTE || b[start] == SINGLE_QUOTE) {
            Some(start + 1)
        } else {
            None
        }
    }
}

/// Whether the value of an attribute whose name ends at `i` fits as a play time;
/// so it does where there is no such value.
pub open spec fn value_fits(b: Seq<u8>, i: int, utf8: bool) -> bool {
    match value_start(b, i) {
        Some(start) => match byte_at(b, start, b[start - 1]) {
            Some(end) => time_fits(b.subrange(start, end), utf8),
            None => true,
        },
        None => true,
    }
}

/// Finds where the value of an attribute starts.
fn find_value_start(b: &Vec<u8>, i: usize) -> (r: Option<usize>)
    requires
        i <= b@.len(),
    ensures
        match r {
            Some(p) => value_start(b@, i as int) == Some(p as int) && i < p <= b@.len(),
            None => value_start(b@, i as int) is None,
        },
{
    proof {
        reveal_strlit("=");
    }
    let n: usize = b.len();
    let sign: usize = skip_blanks(b, i);
    if !check_at(b, sign, "=") {
        return None;
    }
    let start: usize = skip_blanks(b, sign + 1);
    if start == n || !(b[start] == DOUBLE_QUOTE || b[start] == SINGLE_QUOTE) {
        return None;
    }
    Some(start + 1)
}

/// Decides `value_fits`.
fn check_value(b: &Vec<u8>, i: usize, utf8: bool) -> (r: bool)
    requires
        i <= b@.len(),
    ensures
        r == value_fits(b@, i as int, utf8),
{
    match find_value_start(b, i) {
        Some(start) => match find_byte(b, start, b[start - 1]) {
            Some(end) => check_time(&cut_out(b, start, end), utf8),
            None => true,
        },
        None => true,
    }
}

/// Whether an attribute can start at a place: behind a blank or a quote.
pub open spec fn may_start(b: Seq<u8>, i: int) -> bool {
    0 < i && (is_blank(b[i - 1]) || b[i - 1] == DOUBLE_QUOTE || b[i - 1] == SINGLE_QUOTE)
}

/// Whether what may be an attribute with a play time at a place fits.
pub open spec fn attribute_fits(b: Seq<u8>, i: int, utf8: bool) -> bool {
    may_start(b, i) ==> {
        &&& stands_at(b, i, "start"@) ==> value_fits(b, i + 5, utf8)
        &&& stands_at(b, i, "end"@) ==> value_fits(b, i + 3, utf8)
        &&& stands_at(b, i, "time"@) ==> value_fits(b, i + 4, utf8)
    }
}

/// Whether the play times in the attributes from `from` on before `to` fit.
pub open spec fn attributes_fit(b: Seq<u8>, from: int, to: int, utf8: bool) -> bool {
    forall|i: int| from <= i < to ==> #[trigger] attribute_fits(b, i, utf8)
}

/// Decides `attributes_fit`.
fn check_attributes(b: &Vec<u8>, from: usize, to: usize, utf8: bool) -> (r: bool)
    requires
        from <= to <= b@.len(),
    ensures
        r == attributes_fit(b@, from as int, to as int, utf8),
{
    proof {
        reveal_strlit("start");
        reveal_strlit("end");
        reveal_strlit("time");
    }
    assert(b.len() == b@.len());
    let mut i: usize = from;
    while i < to
        invariant
            from <= i <= to <= b@.len(),
            b@.len() <= usize::MAX,
            "start"@.len() == 5,
            "end"@.len() == 3,
            "time"@.len() == 4,
            forall|k: int| from <= k < i ==> #[trigger] attribute_fits(b@, k, utf8),
        decreases to - i,
    {
        if i > 0 {
            let c: u8 = b[i - 1];
            if c == 0x20 || c == 0x09 || c == 0x0a || c == 0x0d || c == DOUBLE_QUOTE || c == SINGLE_QUOTE {
                if check_at(b, i, "start") && !check_value(b, i + 5, utf8) {
                    assert(!attribute_fits(b@, i as int, utf8));
                    return false;
                }
                if check_at(b, i, "end") && !check_value(b, i + 3, utf8) {
                    assert(!attribute_fits(b@, i as int, utf8));
                    return false;
                }
                if check_at(b, i, "time") && !check_value(b, i + 4, utf8) {
                    assert(!attribute_fits(b@, i as int, utf8));
                    return false;
                }
            }
        }
        assert(attribute_fits(b@, i as int, utf8));
        i = i + 1;
    }
    true
}

/// Whether a tag, with the name from `from` to `to` and its `>` at `end`, can do
/// no harm: its name shows what it is, and where it may hold play times they fit.
pub open spec fn tag_fits(b: Seq<u8>, from: int, to: int, end: int, utf8: bool) -> bool {
    &&& utf8 || !occurs(b, ESCAPE, from, to)
    &&& is_named(b, from, to, "text"@) || is_named(b, from, to, "thumbnail"@) ==> {
        &&& utf8 || !occurs(b, ESCAPE, to, end)
        &&& attributes_fit(b, to, end, utf8)
    }
}

/// Decides `tag_fits`.
fn check_tag(b: &Vec<u8>, from: usize, to: usize, end: usize, utf8: bool) -> (r: bool)
    requires
        from <= to <= end <= b@.len(),
    ensures
        r == tag_fits(b@, from as int, to as int, end as int, utf8),
{
    proof {
        reveal_strlit("text");
        reveal_strlit("thumbnail");
    }
    if !utf8 && has_byte(b, ESCAPE, from, to) {
        return false;
    }
    if check_named(b, from, to, "text", 4) || check_named(b, from, to, "thumbnail", 9) {
        (utf8 || !has_byte(b, ESCAPE, to, end)) && check_attributes(b, to, end, utf8)
    } else {
        true
    }
}

// ---------------------------------------------------------------------------
// The whole
// ---------------------------------------------------------------------------

/// Whether the parser may descend through elements of a name.
pub open spec fn is_nesting(name: Seq<u8>) -> bool {
    is_named(name, 0, name.len() as int, "content"@) || is_named(name, 0, name.len() as int, "category"@)
}

/// How many of the open elements the parser may have descended through.
pub open spec fn nested(open: Seq<Seq<u8>>) -> nat
    decreases open.len(),
{
    if open.len() == 0 {
        0
    } else {
        nested(open.drop_last()) + if is_nesting(open.last()) {
            1nat
        } else {
            0nat
        }
    }
}

/// No more than all are nested.
proof fn lemma_nested(open: Seq<Seq<u8>>)
    ensures
        nested(open) <= open.len(),
    decreases open.len(),
{
    if open.len() > 0 {
        lemma_nested(open.drop_last());
    }
}

/// Whether the play time that is being read, if there is one, fits.
pub open spec fn clock_fits(clock: Option<Seq<u8>>, utf8: bool) -> bool {
    clock is Some ==> time_fits(clock->0, utf8)
}

/// Whether the bytes do no harm from `i` on. `open` holds the names of the open
/// elements, and `level` counts the levels: one is left over where an end has
/// another name than the element that it ends. `clock` holds the play time that
/// is being read. Only where `timed` do play times and nested elements matter.
pub open spec fn is_harmless(
    b: Seq<u8>,
    i: int,
    open: Seq<Seq<u8>>,
    level: nat,
    clock: Option<Seq<u8>>,
    timed: bool,
    utf8: bool,
) -> bool
    decreases b.len() - i,
{
    if i < 0 || i >= b.len() {
        clock_fits(clock, utf8)
    } else {
        match piece_at(b, i) {
            None => true,
            Some((piece, next)) => i < next <= b.len() && match piece {
                PieceView::Text { from, to } => is_harmless(
                    b,
                    next,
                    open,
                    level,
                    match clock {
                        Some(t) => Some(t + b.subrange(from, to)),
                        None => None,
                    },
                    timed,
                    utf8,
                ),
                PieceView::Aside => is_harmless(b, next, open, level, clock, timed, utf8),
                PieceView::Opening { from, to, end, empty } => {
                    let name = b.subrange(from, to);
                    &&& clock_fits(clock, utf8)
                    &&& level < MAX_LEVEL
                    &&& timed ==> tag_fits(b, from, to, end, utf8) && nested(open.push(name)) <= MAX_NESTED
                    &&& if empty {
                        is_harmless(b, next, open, level, None, timed, utf8)
                    } else {
                        is_harmless(
                            b,
                            next,
                            open.push(name),
                            level + 1,
                            if timed && is_named(b, from, to, "duration"@) {
                                Some(seq![])
                            } else {
                                None
                            },
                            timed,
                            utf8,
                        )
                    }
                },
                PieceView::Closing { from, to } => if open.len() == 0 {
                    is_harmless(b, next, open, level, None, timed, utf8)
                } else if open.last() != b.subrange(from, to) {
                    is_harmless(b, next, open.drop_last(), level, None, timed, utf8)
                } else {
                    clock_fits(clock, utf8) && is_harmless(
                        b,
                        next,
                        open.drop_last(),
                        if level > 0 {
                            (level - 1) as nat
                        } else {
                            0
                        },
                        None,
                        timed,
                        utf8,
                    )
                },
            },
        }
    }
}

/// The stretches of bytes between the given places.
pub open spec fn stretches(b: Seq<u8>, places: Seq<(usize, usize)>) -> Seq<Seq<u8>> {
    Seq::new(places.len(), |k: int| b.subrange(places[k].0 as int, places[k].1 as int))
}

/// Whether two stretches are the same.
fn same_stretch(b: &Vec<u8>, x: (usize, usize), y: (usize, usize)) -> (r: bool)
    requires
        x.0 <= x.1 <= b@.len(),
        y.0 <= y.1 <= b@.len(),
    ensures
        r == (b@.subrange(x.0 as int, x.1 as int) == b@.subrange(y.0 as int, y.1 as int)),
{
    let ghost s = b@.subrange(x.0 as int, x.1 as int);
    let ghost t = b@.subrange(y.0 as int, y.1 as int);
    let n: usize = x.1 - x.0;
    if n != y.1 - y.0 {
        assert(s.len() != t.len());
        return false;
    }
    let mut k: usize = 0;
    while k < n
        invariant
            k <= n,
            n == x.1 - x.0 == y.1 - y.0,
            x.0 <= x.1 <= b@.len(),
            y.0 <= y.1 <= b@.len(),
            s == b@.subrange(x.0 as int, x.1 as int),
            t == b@.subrange(y.0 as int, y.1 as int),
            forall|j: int| 0 <= j < k ==> #[trigger] s[j] == t[j],
        decreases n - k,
    {
        if b[x.0 + k] != b[y.0 + k] {
            assert(s[k as int] != t[k as int]);
            return false;
        }
        k = k + 1;
    }
    assert(s =~= t);
    true
}

/// The play time that is being read.
pub open spec fn clock_of(clock: Option<Vec<u8>>) -> Option<Seq<u8>> {
    match clock {
        Some(t) => Some(t@),
        None => None,
    }
}

/// Decides `clock_fits`.
fn check_clock(clock: &Option<Vec<u8>>, utf8: bool) -> (r: bool)
    ensures
        r == clock_fits(clock_of(*clock), utf8),
{
    match clock {
        Some(t) => check_time(t, utf8),
        None => true,
    }
}

proof fn lemma_same_name(b: Seq<u8>, from: int, to: int, t: Seq<char>)
    requires
        0 <= from <= to <= b.len(),
    ensures
        is_named(b.subrange(from, to), 0, to - from, t) == is_named(b, from, to, t),
{
    let s = b.subrange(from, to);
    if to - from >= t.len() {
        let d = to - from - t.len();
        assert(stands_at(s, d, t) == stands_at(b, to - t.len(), t)) by {
            if stands_at(s, d, t) {
                assert forall|k: int| 0 <= k < t.len() implies b[to - t.len() + k] as char == #[trigger] t[k] by {
                    assert(s[d + k] as char == t[k]);
                }
            }
            if stands_at(b, to - t.len(), t) {
                assert forall|k: int| 0 <= k < t.len() implies s[d + k] as char == #[trigger] t[k] by {
                    assert(b[to - t.len() + k] as char == t[k]);
                }
            }
        }
    }
}

/// Decides whether the parser may descend through elements of a name.
fn check_nesting(b: &Vec<u8>, from: usize, to: usize) -> (r: bool)
    requires
        from <= to <= b@.len(),
    ensures
        r == is_nesting(b@.subrange(from as int, to as int)),
{
    proof {
        reveal_strlit("content");
        reveal_strlit("category");
        lemma_same_name(b@, from as int, to as int, "content"@);
        lemma_same_name(b@, from as int, to as int, "category"@);
    }
    check_named(b, from, to, "content", 7) || check_named(b, from, to, "category", 8)
}

/// Decides `is_harmless` for the whole of the bytes.
fn check_harmless(b: &Vec<u8>, timed: bool, utf8: bool) -> (r: bool)
    ensures
        r == is_harmless(b@, 0, seq![], 0, None, timed, utf8),
{
    proof {
        reveal_strlit("duration");
    }
    let mut open: Vec<(usize, usize)> = Vec::new();
    let mut level: usize = 0;
    let mut inner: usize = 0;
    let mut clock: Option<Vec<u8>> = None;
    let mut i: usize = 0;
    assert(stretches(b@, open@) =~= seq![]);
    while i < b.len()
        invariant
            i <= b@.len(),
            "duration"@.len() == 8,
            level <= MAX_LEVEL,
            open@.len() <= level,
            inner == nested(stretches(b@, open@)),
            inner <= open@.len(),
            forall|k: int| 0 <= k < open@.len() ==> (#[trigger] open@[k]).0 <= open@[k].1 <= b@.len(),
            is_harmless(b@, 0, seq![], 0, None, timed, utf8) == is_harmless(
                b@,
                i as int,
                stretches(b@, open@),
                level as nat,
                clock_of(clock),
                timed,
                utf8,
            ),
        decreases b.len() - i,
    {
        let ghost names = stretches(b@, open@);
        match read_piece(b, i) {
            None => {
                return true;
            },
            Some((piece, next)) => {
                match piece {
                    Piece::Text { from, to } => {
                        clock = match clock {
                            Some(t) => {
                                let mut more = t;
                                extend(&mut more, b, from, to);
                                Some(more)
                            },
                            None => None,
                        };
                    },
                    Piece::Aside => {},
                    Piece::Opening { from, to, end, empty } => {
                        let nesting: bool = check_nesting(b, from, to);
                        let ghost name = b@.subrange(from as int, to as int);
                        proof {
                            assert(names.push(name).drop_last() =~= names);
                            assert(nested(names.push(name)) == inner + if nesting {
                                1nat
                            } else {
                                0nat
                            });
                        }
                        if !check_clock(&clock, utf8) || level >= MAX_LEVEL {
                            return false;
                        }
                        let more: usize = if nesting {
                            inner + 1
                        } else {
                            inner
                        };
                        if timed && (!check_tag(b, from, to, end, utf8) || more > MAX_NESTED) {
                            return false;
                        }
                        clock = None;
                        if !empty {
                            if timed && check_named(b, from, to, "duration", 8) {
                                let none: Vec<u8> = Vec::new();
                                assert(none@ =~= seq![]);
                                clock = Some(none);
                            }
                            open.push((from, to));
                            level = level + 1;
                            inner = more;
                            assert(stretches(b@, open@) =~= names.push(name));
                        }
                    },
                    Piece::Closing { from, to } => {
                        let n: usize = open.len();
                        if n == 0 {
                            clock = None;
                        } else {
                            assert(names.last() == b@.subrange(open@[n - 1].0 as int, open@[n - 1].1 as int));
                            if same_stretch(b, open[n - 1], (from, to)) {
                                if !check_clock(&clock, utf8) {
                                    return false;
                                }
                                level = level - 1;
                            }
                            let (start, stop) = open[n - 1];
                            let nesting: bool = check_nesting(b, start, stop);
                            assert(nested(names) == nested(names.drop_last()) + if nesting {
                                1nat
                            } else {
                                0nat
                            });
                            proof {
                                lemma_nested(names.drop_last());
                            }
                            if nesting {
                                inner = inner - 1;
                            }
                            open.pop();
                            clock = None;
                            assert(stretches(b@, open@) =~= names.drop_last());
                        }
                    },
                }
                i = next;
            },
        }
    }
    check_clock(&clock, utf8)
}

/// Whether the bytes are read as markup: a `<` comes before any `{`.
pub open spec fn is_markup(b: Seq<u8>) -> bool {
    exists|i: int| 0 <= i < b.len() && #[trigger] b[i] == LESS && !occurs(b, BRACE, 0, i)
}

/// Decides `is_markup`.
fn check_markup(b: &Vec<u8>) -> (r: bool)
    ensures
        r == is_markup(b@),
{
    let mut i: usize = 0;
    while i < b.len()
        invariant
            i <= b@.len(),
            forall|k: int| 0 <= k < i ==> #[trigger] b@[k] != LESS && b@[k] != BRACE,
        decreases b.len() - i,
    {
        if b[i] == LESS {
            assert(!occurs(b@, BRACE, 0, i as int));
            return true;
        }
        if b[i] == BRACE {
            assert forall|k: int| 0 <= k < b@.len() && #[trigger] b@[k] == LESS implies occurs(b@, BRACE, 0, k) by {
                assert(k > i);
                assert(b@[i as int] == BRACE);
            }
            return false;
        }
        i = i + 1;
    }
    false
}

/// Whether a declaration of the encoding that may stand at a place names UTF-8.
pub open spec fn declares_utf8(b: Seq<u8>, i: int) -> bool {
    stands_at(b, i, "encoding"@) ==> match value_start(b, i + 8) {
        Some(p) => stands_uncased(b, p, "UTF-8"@) && p + 5 < b.len() && b[p + 5] == b[p - 1],
        None => true,
    }
}

/// Whether the bytes are read as UTF-8: they do not start as wider characters do,
/// and name no other encoding.
pub open spec fn is_utf8(b: Seq<u8>) -> bool {
    &&& b.len() >= 2 ==> b[0] != 0 && b[0] < 0xfe && b[1] != 0
    &&& forall|i: int| 0 <= i < b.len() ==> #[trigger] declares_utf8(b, i)
}

/// Decides `is_utf8`.
fn check_utf8(b: &Vec<u8>) -> (r: bool)
    ensures
        r == is_utf8(b@),
{
    proof {
        reveal_strlit("encoding");
        reveal_strlit("UTF-8");
    }
    let n: usize = b.len();
    if n >= 2 && !(b[0] != 0 && b[0] < 0xfe && b[1] != 0) {
        return false;
    }
    let mut i: usize = 0;
    while i < n
        invariant
            i <= n,
            n == b@.len(),
            "encoding"@.len() == 8,
            "UTF-8"@.len() == 5,
            forall|k: int| 0 <= k < i ==> #[trigger] declares_utf8(b@, k),
        decreases n - i,
    {
        if check_at(b, i, "encoding") {
            match find_value_start(b, i + 8) {
                Some(p) => {
                    if !check_uncased(b, p, "UTF-8") || p + 5 >= n || b[p + 5] != b[p - 1] {
                        assert(!declares_utf8(b@, i as int));
                        return false;
                    }
                },
                None => {},
            }
        }
        assert(declares_utf8(b@, i as int));
        i = i + 1;
    }
    true
}

/// Whether a namespace with play times may be bound: the bytes mention it, or
/// hold the escape character, which can disguise it.
pub open spec fn is_timed(b: Seq<u8>, utf8: bool) -> bool {
    ||| place_of(b, 0, PODCAST_NAME@) is Some
    ||| place_of(b, 0, MEDIA_NAME@) is Some
    ||| !utf8 && occurs(b, ESCAPE, 0, b.len() as int)
}

/// Whether the feed parser can take the bytes. Bytes that are no markup it can
/// always take. Markup must do no harm. Zero bytes must not stand in it where it
/// may be read as wide characters, which hide what they say; the parser finds no
/// feed in these.
pub open spec fn is_tame(b: Seq<u8>) -> bool {
    is_markup(b) ==> {
        &&& is_utf8(b) || !occurs(b, 0, 0, b.len() as int)
        &&& is_harmless(b, 0, seq![], 0, None, is_timed(b, is_utf8(b)), is_utf8(b))
    }
}

/// Decides `is_tame`.
pub fn check_tame(b: &Vec<u8>) -> (r: bool)
    ensures
        r == is_tame(b@),
{
    if !check_markup(b) {
        return true;
    }
    let utf8: bool = check_utf8(b);
    if !utf8 && has_byte(b, 0, 0, b.len()) {
        return false;
    }
    let podcast = find(b, 0, PODCAST_NAME);
    let media = find(b, 0, MEDIA_NAME);
    let timed: bool = podcast.is_some() || media.is_some() || (!utf8 && has_byte(b, ESCAPE, 0, b.len()));
    check_harmless(b, timed, utf8)
}

// ---------------------------------------------------------------------------
// What the walk finds
// ---------------------------------------------------------------------------

/// Searching finds the first place, and only that one.
pub proof fn first_place_is_found(b: Seq<u8>, i: int, p: int, c: u8, t: Seq<char>)
    requires
        0 <= i <= p <= b.len(),
    ensures
        (forall|k: int| i <= k < p ==> #[trigger] b[k] != c) && p < b.len() && b[p] == c ==> byte_at(b, i, c) == Some(p),
        (forall|k: int| i <= k < p ==> #[trigger] b[k] != c) && p == b.len() ==> byte_at(b, i, c) is None,
        (forall|k: int| i <= k < p ==> !#[trigger] stands_at(b, k, t)) && p < b.len() && stands_at(b, p, t) ==> place_of(
            b,
            i,
            t,
        ) == Some(p),
        (forall|k: int| i <= k < p ==> !#[trigger] stands_at(b, k, t)) && p == b.len() ==> place_of(b, i, t) is None,
    decreases p - i,
{
    if i < p {
        first_place_is_found(b, i + 1, p, c, t);
    }
}

/// Blanks are passed over, up to what is no blank; a name goes up to a blank; digits
/// go up to what is no digit.
pub proof fn runs_end_where_they_end(b: Seq<u8>, i: int, p: int, end: int)
    requires
        0 <= i <= p <= end <= b.len(),
    ensures
        (forall|k: int| i <= k < p ==> is_blank(#[trigger] b[k])) && (p == end || !is_blank(b[p])) ==> behind_blanks(
            b,
            i,
            end,
        ) == p,
        (forall|k: int| i <= k < p ==> !is_blank(#[trigger] b[k])) && (p == end || is_blank(b[p])) ==> name_end(b, i, end)
            == p,
        (forall|k: int| i <= k < p ==> is_digit(#[trigger] b[k])) && (p == b.len() || !is_digit(b[p])) ==> run_end(b, i)
            == p,
        (forall|k: int| i <= k < p ==> !is_digit(#[trigger] b[k])) && p < b.len() && is_digit(b[p]) ==> digit_at(b, i)
            == Some(p),
        (forall|k: int| i <= k < p ==> !is_digit(#[trigger] b[k])) && p == b.len() ==> digit_at(b, i) is None,
    decreases p - i,
{
    if i < p {
        runs_end_where_they_end(b, i + 1, p, end);
    }
}

/// Blanks in front of an end are left out.
pub proof fn blanks_at_the_end_are_left_out(b: Seq<u8>, i: int, p: int, end: int)
    requires
        0 <= i <= p <= end <= b.len(),
        forall|k: int| p <= k < end ==> is_blank(#[trigger] b[k]),
        p > i ==> !is_blank(b[p - 1]),
    ensures
        before_blanks(b, i, end) == p,
    decreases end - p,
{
    if p < end {
        assert(is_blank(b[end - 1]));
        blanks_at_the_end_are_left_out(b, i, p, end - 1);
    }
}

/// A tag, and so a document type, ends at the first `>` that no quotes hold: what is
/// no quote and no `>` is passed over, and so is everything from a quote up to the
/// next of its kind.
pub proof fn quotes_hide_the_end_of_a_tag(b: Seq<u8>, i: int, p: int)
    requires
        0 <= i <= p < b.len(),
        forall|k: int| i <= k < p ==> #[trigger] b[k] != GREATER && b[k] != DOUBLE_QUOTE && b[k] != SINGLE_QUOTE,
    ensures
        tag_end(b, i, 0) == tag_end(b, p, 0),
        b[p] == GREATER ==> tag_end(b, i, 0) == Some(p),
        (forall|k: int| i <= k < p ==> #[trigger] b[k] != BRACKET) ==> doctype_end(b, i, 0) == doctype_end(b, p, 0),
        (forall|k: int| i <= k < p ==> #[trigger] b[k] != BRACKET) && b[p] == GREATER ==> doctype_end(b, i, 0) == Some(p),
        (forall|k: int| i <= k < p ==> #[trigger] b[k] != BRACKET) && b[p] == BRACKET ==> doctype_end(b, i, 0)
            == subset_end(b, p + 1),
    decreases p - i,
{
    if i < p {
        quotes_hide_the_end_of_a_tag(b, i + 1, p);
    }
}

/// What stands in quotes is passed over, whatever it is.
pub proof fn quoted_text_is_passed_over(b: Seq<u8>, i: int, p: int)
    requires
        0 <= i < p <= b.len(),
        b[i] == DOUBLE_QUOTE || b[i] == SINGLE_QUOTE,
        forall|k: int| i < k < p ==> #[trigger] b[k] != b[i],
    ensures
        p < b.len() && b[p] == b[i] ==> tag_end(b, i, 0) == tag_end(b, p + 1, 0) && doctype_end(b, i, 0) == doctype_end(
            b,
            p + 1,
            0,
        ),
        p == b.len() ==> tag_end(b, i, 0) is None && doctype_end(b, i, 0) is None,
{
    lemma_in_quotes(b, i + 1, p, b[i]);
}

proof fn lemma_in_quotes(b: Seq<u8>, i: int, p: int, quote: u8)
    requires
        0 <= i <= p <= b.len(),
        quote == DOUBLE_QUOTE || quote == SINGLE_QUOTE,
        forall|k: int| i <= k < p ==> #[trigger] b[k] != quote,
    ensures
        p < b.len() && b[p] == quote ==> tag_end(b, i, quote) == tag_end(b, p + 1, 0) && doctype_end(b, i, quote)
            == doctype_end(b, p + 1, 0),
        p == b.len() ==> tag_end(b, i, quote) is None && doctype_end(b, i, quote) is None,
    decreases p - i,
{
    if i < p {
        lemma_in_quotes(b, i + 1, p, quote);
    }
}

/// Digits make the number that they denote.
pub proof fn digits_make_their_number(t: Seq<u8>, from: int, to: int)
    requires
        0 <= from <= to <= t.len(),
        forall|k: int| from <= k < to ==> is_digit(#[trigger] t[k]),
    ensures
        number_of(t, from, to) == digits_value(Seq::new((to - from) as nat, |k: int| t[from + k] as char)),
    decreases to - from,
{
    let s = Seq::new((to - from) as nat, |k: int| t[from + k] as char);
    if from < to {
        digits_make_their_number(t, from, to - 1);
        assert(s.drop_last() =~= Seq::new((to - 1 - from) as nat, |k: int| t[from + k] as char));
        assert(is_digit(t[to - 1]));
    }
}

/// A play time of hours, minutes and seconds is so many seconds; one of digits alone
/// is their number; one without digits is none.
pub proof fn play_time_is_in_seconds(p: Seq<u8>, h: Seq<u8>, m0: u8, m1: u8, s0: u8, s1: u8, rest: Seq<u8>)
    requires
        forall|k: int| 0 <= k < p.len() ==> !is_digit(#[trigger] p[k]),
        forall|k: int| 0 <= k < h.len() ==> is_digit(#[trigger] h[k]),
        h.len() > 0,
        is_digit(m0) && is_digit(m1) && is_digit(s0) && is_digit(s1),
    ensures
        seconds_of(p) is None,
        seconds_of(p + h) == Some(number_of(h, 0, h.len() as int)),
        seconds_of(p + h + seq![COLON, m0, m1, COLON, s0, s1] + rest) == Some(
            (number_of(h, 0, h.len() as int) * 3600 + ((m0 - 0x30) * 10 + (m1 - 0x30)) * 60 + (s0 - 0x30) * 10 + (s1
                - 0x30)) as nat,
        ),
{
    let a = p.len() as int;
    let n = h.len() as int;
    lemma_no_clock(p, 0);
    runs_end_where_they_end(p, 0, a, a);
    let t = p + h;
    assert forall|k: int| 0 <= k < a implies !is_digit(#[trigger] t[k]) by {
        assert(t[k] == p[k]);
    }
    assert forall|k: int| a <= k < a + n implies is_digit(#[trigger] t[k]) by {
        assert(t[k] == h[k - a]);
    }
    runs_end_where_they_end(t, 0, a, a);
    runs_end_where_they_end(t, a, a + n, a + n);
    lemma_clock_behind(t, 0, a);
    lemma_same_number(t, a, h, 0, n);
    assert(clock_at(t, a + n) is None);
    let u = p + h + seq![COLON, m0, m1, COLON, s0, s1] + rest;
    assert forall|k: int| 0 <= k < a implies !is_digit(#[trigger] u[k]) by {
        assert(u[k] == p[k]);
    }
    assert forall|k: int| a <= k < a + n implies is_digit(#[trigger] u[k]) by {
        assert(u[k] == h[k - a]);
    }
    let j = a + n;
    assert(u[j] == COLON && u[j + 1] == m0 && u[j + 2] == m1 && u[j + 3] == COLON && u[j + 4] == s0 && u[j + 5] == s1);
    runs_end_where_they_end(u, a, j, j);
    lemma_clock_behind(u, 0, a);
    lemma_same_number(u, a, h, 0, n);
    assert(number_of(u, j + 1, j + 1) == 0);
    assert(number_of(u, j + 1, j + 2) == m0 - 0x30);
    assert(number_of(u, j + 4, j + 4) == 0);
    assert(number_of(u, j + 4, j + 5) == s0 - 0x30);
}

proof fn lemma_no_clock(t: Seq<u8>, i: int)
    requires
        0 <= i <= t.len(),
        forall|k: int| i <= k < t.len() ==> !is_digit(#[trigger] t[k]),
    ensures
        clock_at(t, i) is None,
    decreases t.len() - i,
{
    if i < t.len() {
        lemma_no_clock(t, i + 1);
    }
}

proof fn lemma_clock_behind(t: Seq<u8>, i: int, p: int)
    requires
        0 <= i <= p < t.len(),
        forall|k: int| i <= k < p ==> !is_digit(#[trigger] t[k]),
    ensures
        clock_at(t, i) == clock_at(t, p),
    decreases p - i,
{
    if i < p {
        lemma_clock_behind(t, i + 1, p);
    }
}

proof fn lemma_same_number(t: Seq<u8>, a: int, h: Seq<u8>, from: int, to: int)
    requires
        0 <= from <= to <= h.len(),
        0 <= a,
        a + h.len() <= t.len(),
        forall|k: int| 0 <= k < h.len() ==> t[a + k] == #[trigger] h[k],
    ensures
        number_of(t, a + from, a + to) == number_of(h, from, to),
    decreases to - from,
{
    if from < to {
        lemma_same_number(t, a, h, from, to - 1);
        assert(t[a + to - 1] == h[to - 1]);
    }
}

/// As many elements are nested as there are open elements that the parser descends
/// through.
pub proof fn nested_elements_are_counted(open: Seq<Seq<u8>>)
    ensures
        nested(open) == open.filter(|name: Seq<u8>| is_nesting(name)).len(),
    decreases open.len(),
{
    reveal(Seq::filter);
    if open.len() > 0 {
        nested_elements_are_counted(open.drop_last());
    }
}

/// An element has a name with any prefix and without one, and by nothing but its name.
pub proof fn prefix_of_a_name_does_not_matter(b: Seq<u8>, from: int, to: int, t: Seq<char>)
    requires
        0 <= from <= to <= b.len(),
        t.len() > 0,
    ensures
        is_named(b, from, to, t) <==> {
            let start = to - t.len();
            &&& from <= start
            &&& forall|k: int| 0 <= k < t.len() ==> b[start + k] as char == #[trigger] t[k]
            &&& start == from || b[start - 1] == COLON
        },
{
}

/// Bytes without a `<`, and bytes with a `{` before it, are no markup, and the parser
/// can take them.
pub proof fn other_bytes_are_tame(b: Seq<u8>, p: int)
    requires
        0 <= p <= b.len(),
        forall|k: int| 0 <= k < p ==> #[trigger] b[k] != LESS,
        p == b.len() || b[p] == BRACE,
    ensures
        !is_markup(b),
        is_tame(b),
{
    assert forall|i: int| 0 <= i < b.len() && #[trigger] b[i] == LESS implies occurs(b, BRACE, 0, i) by {
        assert(i >= p);
        assert(b[p] == BRACE);
    }
}

/// Text goes up to the next `<`, and does no harm by itself.
pub proof fn text_does_no_harm(b: Seq<u8>, i: int, p: int, open: Seq<Seq<u8>>, level: nat, timed: bool, utf8: bool)
    requires
        0 <= i < p <= b.len(),
        forall|k: int| i <= k < p ==> #[trigger] b[k] != LESS,
        p == b.len() || b[p] == LESS,
    ensures
        piece_at(b, i) == Some((PieceView::Text { from: i, to: p }, p)),
        is_harmless(b, i, open, level, None, timed, utf8) == is_harmless(b, p, open, level, None, timed, utf8),
        p == b.len() ==> is_harmless(b, i, open, level, None, timed, utf8),
{
    first_place_is_found(b, i, p, LESS, seq![]);
    if p == b.len() {
        assert(is_harmless(b, p, open, level, None, timed, utf8));
    }
}

/// What the parser cannot take is harm: an element on a level beyond those that it can
/// count; where play times matter, more elements in each other than it may descend
/// through, and a play time that does not fit, at the end of its element and before
/// another one.
pub proof fn too_much_is_harm(
    b: Seq<u8>,
    i: int,
    open: Seq<Seq<u8>>,
    level: nat,
    clock: Option<Seq<u8>>,
    timed: bool,
    utf8: bool,
)
    requires
        0 <= i < b.len(),
        piece_at(b, i) is Some,
        (piece_at(b, i)->0).0 is Opening,
    ensures
        level >= 65_535 ==> !is_harmless(b, i, open, level, clock, timed, utf8),
        clock is Some && !time_fits(clock->0, utf8) ==> !is_harmless(b, i, open, level, clock, timed, utf8),
        timed && nested(open.push(b.subrange((piece_at(b, i)->0).0->Opening_from, (piece_at(b, i)->0).0->Opening_to))) > 100
            ==> !is_harmless(b, i, open, level, clock, timed, utf8),
{
}

/// A play time fits exactly where its digits are plain and its seconds are less than
/// the largest number of 64 bits.
pub proof fn play_times_fit_in_64_bits(t: Seq<u8>, utf8: bool)
    requires
        forall|k: int| 0 <= k < t.len() ==> is_plain(#[trigger] t[k], utf8) && t[k] != AMPERSAND,
    ensures
        time_fits(t, utf8) <==> seconds_of(t) is None || seconds_of(t)->0 < 0xffff_ffff_ffff_ffff,
{
}

/// Elements that are opened and closed again leave everything as it was.
pub proof fn closed_elements_leave_no_trace(b: Seq<u8>, i: int, open: Seq<Seq<u8>>, level: nat, timed: bool, utf8: bool)
    requires
        0 <= i < b.len(),
        level < 65_535,
        piece_at(b, i) is Some,
        (piece_at(b, i)->0).0 is Opening,
        !((piece_at(b, i)->0).0->empty),
        ({
            let next = (piece_at(b, i)->0).1;
            &&& i < next < b.len()
            &&& piece_at(b, next) is Some
            &&& (piece_at(b, next)->0).0 is Closing
            &&& next < (piece_at(b, next)->0).1 <= b.len()
            &&& b.subrange((piece_at(b, next)->0).0->Closing_from, (piece_at(b, next)->0).0->Closing_to) == b.subrange(
                (piece_at(b, i)->0).0->Opening_from,
                (piece_at(b, i)->0).0->Opening_to,
            )
        }),
    ensures
        !timed ==> is_harmless(b, i, open, level, None, timed, utf8) == is_harmless(
            b,
            (piece_at(b, (piece_at(b, i)->0).1)->0).1,
            open,
            level,
            None,
            timed,
            utf8,
        ),
{
    let name = b.subrange((piece_at(b, i)->0).0->Opening_from, (piece_at(b, i)->0).0->Opening_to);
    let next = (piece_at(b, i)->0).1;
    assert(open.push(name).drop_last() =~= open);
    assert(open.push(name).last() == name);
    if !timed {
        assert(is_harmless(b, i, open, level, None, timed, utf8) == is_harmless(
            b,
            next,
            open.push(name),
            level + 1,
            None,
            timed,
            utf8,
        ));
    }
}

/// A play time that does not fit is harm at the end of its element.
pub proof fn play_time_is_weighed_at_its_end(
    b: Seq<u8>,
    i: int,
    open: Seq<Seq<u8>>,
    level: nat,
    clock: Option<Seq<u8>>,
    timed: bool,
    utf8: bool,
)
    requires
        clock is Some,
        !time_fits(clock->0, utf8),
        i == b.len() || (0 <= i < b.len() && open.len() > 0 && piece_at(b, i) is Some && (piece_at(b, i)->0).0
            is Closing && open.last() == b.subrange(
            (piece_at(b, i)->0).0->Closing_from,
            (piece_at(b, i)->0).0->Closing_to,
        )),
    ensures
        !is_harmless(b, i, open, level, clock, timed, utf8),
{
}

/// What is set aside goes up to its end: a comment to the first `-->`, an instruction
/// to the first `?>`. A section of characters is text, up to the first `]]>`.
pub proof fn asides_go_to_their_end(b: Seq<u8>, i: int, p: int)
    requires
        0 <= i < p < b.len(),
    ensures
        stands_at(b, i, "<!--"@) && p >= i + 4 && stands_at(b, p, "-->"@) && (forall|k: int|
            i + 4 <= k < p ==> !#[trigger] stands_at(b, k, "-->"@)) ==> piece_at(b, i) == Some((PieceView::Aside, p + 3)),
        stands_at(b, i, "<![CDATA["@) && p >= i + 9 && stands_at(b, p, "]]>"@) && (forall|k: int|
            i + 9 <= k < p ==> !#[trigger] stands_at(b, k, "]]>"@)) ==> piece_at(b, i) == Some(
            (PieceView::Text { from: i + 9, to: p }, p + 3),
        ),
        stands_at(b, i, "<?"@) && p >= i + 2 && stands_at(b, p, "?>"@) && (forall|k: int|
            i + 1 <= k < p ==> !#[trigger] stands_at(b, k, "?>"@)) ==> piece_at(b, i) == Some((PieceView::Aside, p + 2)),
{
    reveal_strlit("<!--");
    reveal_strlit("-->");
    reveal_strlit("<![CDATA[");
    reveal_strlit("]]>");
    reveal_strlit("<?");
    reveal_strlit("?>");
    if stands_at(b, i, "<!--"@) {
        let t = "<!--"@;
        assert(b[i + 0] as char == t[0] && b[i + 1] as char == t[1]);
        if p >= i + 4 {
            first_place_is_found(b, i + 4, p, 0, "-->"@);
        }
    }
    if stands_at(b, i, "<![CDATA["@) {
        let t = "<![CDATA["@;
        assert(b[i + 0] as char == t[0] && b[i + 1] as char == t[1] && b[i + 2] as char == t[2]);
        let c = "<!--"@;
        assert(c[2] == '-');
        assert(!stands_at(b, i, "<!--"@)) by {
            if stands_at(b, i, "<!--"@) {
                assert(b[i + 2] as char == c[2]);
            }
        }
        if p >= i + 9 {
            first_place_is_found(b, i + 9, p, 0, "]]>"@);
        }
    }
    if stands_at(b, i, "<?"@) {
        let t = "<?"@;
        assert(b[i + 0] as char == t[0] && b[i + 1] as char == t[1]);
        if p >= i + 2 {
            first_place_is_found(b, i + 1, p, 0, "?>"@);
        }
    }
}

/// A tag without quotes goes up to its `>`. It closes an element where it starts with
/// `</`, and opens one otherwise, an empty one where it ends with `/>`.
pub proof fn tags_go_to_their_end(b: Seq<u8>, i: int, p: int, name: int)
    requires
        0 <= i,
        i + 1 < p < b.len(),
        b[i] == LESS,
        b[p] == GREATER,
        b[i + 1] != BANG,
        b[i + 1] != QUESTION,
        forall|k: int| i + 1 <= k < p ==> #[trigger] b[k] != GREATER && b[k] != DOUBLE_QUOTE && b[k] != SINGLE_QUOTE,
        i + 1 <= name <= p,
        forall|k: int| i + 1 <= k < name ==> !is_blank(#[trigger] b[k]),
    ensures
        b[i + 1] != SLASH && b[p - 1] != SLASH && (name == p || is_blank(b[name])) ==> piece_at(b, i) == Some(
            (PieceView::Opening { from: i + 1, to: name, end: p, empty: false }, p + 1),
        ),
        b[i + 1] != SLASH && b[p - 1] == SLASH && name <= p - 1 && (name == p - 1 || is_blank(b[name])) ==> piece_at(b, i)
            == Some((PieceView::Opening { from: i + 1, to: name, end: p, empty: true }, p + 1)),
        b[i + 1] == SLASH && name >= i + 2 && (forall|k: int| name <= k < p ==> is_blank(#[trigger] b[k])) ==> piece_at(
            b,
            i,
        ) == Some((PieceView::Closing { from: i + 2, to: name }, p + 1)),
{
    quotes_hide_the_end_of_a_tag(b, i + 1, p);
    if b[i + 1] != SLASH {
        if b[p - 1] == SLASH {
            if name <= p - 1 {
                runs_end_where_they_end(b, i + 1, name, p - 1);
            }
        } else {
            runs_end_where_they_end(b, i + 1, name, p);
        }
    } else if name >= i + 2 {
        if forall|k: int| name <= k < p ==> is_blank(#[trigger] b[k]) {
            blanks_at_the_end_are_left_out(b, i + 2, name, p);
        }
    }
}

/// The value of an attribute is what its quotes hold, whatever blanks stand around its
/// sign; where the attribute may be a play time, the value has to fit.
pub proof fn play_times_in_attributes_have_to_fit(
    b: Seq<u8>,
    at: int,
    name: Seq<char>,
    sign: int,
    start: int,
    end: int,
    from: int,
    to: int,
    utf8: bool,
)
    requires
        name == "start"@ || name == "end"@ || name == "time"@,
        0 < from <= at < to,
        is_blank(b[at - 1]),
        stands_at(b, at, name),
        at + name.len() <= sign < start < end < b.len(),
        forall|k: int| at + name.len() <= k < sign ==> is_blank(#[trigger] b[k]),
        b[sign] == 0x3d,
        forall|k: int| sign < k < start - 1 ==> is_blank(#[trigger] b[k]),
        sign < start - 1,
        b[start - 1] == DOUBLE_QUOTE || b[start - 1] == SINGLE_QUOTE,
        b[end] == b[start - 1],
        forall|k: int| start <= k < end ==> #[trigger] b[k] != b[start - 1],
        attributes_fit(b, from, to, utf8),
    ensures
        time_fits(b.subrange(start, end), utf8),
{
    reveal_strlit("start");
    reveal_strlit("end");
    reveal_strlit("time");
    reveal_strlit("=");
    let n = b.len() as int;
    let i = at + name.len();
    assert(attribute_fits(b, at, utf8));
    runs_end_where_they_end(b, i, sign, n);
    let t = "="@;
    assert(t.len() == 1 && t[0] == '=');
    assert(stands_at(b, sign, t)) by {
        assert(b[sign + 0] as char == t[0]);
    }
    runs_end_where_they_end(b, sign + 1, start - 1, n);
    assert(value_start(b, i) == Some(start));
    first_place_is_found(b, start, end, b[start - 1], seq![]);
    assert(value_fits(b, i, utf8));
}

/// Bytes are read as UTF-8 where they name no encoding and do not start as wider
/// characters do.
pub proof fn bytes_are_utf8_unless_they_say_otherwise(b: Seq<u8>)
    requires
        forall|i: int| 0 <= i < b.len() ==> !#[trigger] stands_at(b, i, "encoding"@),
    ensures
        is_utf8(b) <==> b.len() < 2 || (b[0] != 0 && b[0] < 0xfe && b[1] != 0),
{
    assert forall|i: int| 0 <= i < b.len() implies #[trigger] declares_utf8(b, i) by {
        assert(!stands_at(b, i, "encoding"@));
    }
}

/// Play times matter wherever one of the namespaces that have them is mentioned.
pub proof fn mentioned_namespaces_matter(b: Seq<u8>, p: int)
    requires
        0 <= p < b.len(),
        stands_at(b, p, PODCAST_NAME@) || stands_at(b, p, MEDIA_NAME@),
    ensures
        is_timed(b, true),
        is_timed(b, false),
{
    if stands_at(b, p, PODCAST_NAME@) {
        lemma_found_somewhere(b, 0, p, PODCAST_NAME@);
    } else {
        lemma_found_somewhere(b, 0, p, MEDIA_NAME@);
    }
}

proof fn lemma_found_somewhere(b: Seq<u8>, i: int, p: int, t: Seq<char>)
    requires
        0 <= i <= p < b.len(),
        stands_at(b, p, t),
    ensures
        place_of(b, i, t) is Some,
    decreases p - i,
{
    if i < p && !stands_at(b, i, t) {
        lemma_found_somewhere(b, i + 1, p, t);
    }
}

/// The declarations of a document type end at their bracket, and the type at the first
/// `>` behind it. What is neither a bracket nor a declaration is passed over, and so is
/// every declaration, up to its own end.
pub proof fn declarations_are_passed_over(b: Seq<u8>, i: int, p: int)
    requires
        0 <= i <= p < b.len(),
        forall|k: int| i <= k < p ==> #[trigger] b[k] != BRACKET_END && b[k] != LESS,
    ensures
        subset_end(b, i) == subset_end(b, p),
        b[p] == BRACKET_END ==> subset_end(b, i) == byte_at(b, p + 1, GREATER),
        b[p] == LESS && declaration_end(b, p) is Some && p < declaration_end(b, p)->0 < b.len() ==> subset_end(b, i)
            == subset_end(b, declaration_end(b, p)->0 + 1),
        b[p] == LESS && declaration_end(b, p) is None ==> subset_end(b, i) is None,
    decreases p - i,
{
    if i < p {
        declarations_are_passed_over(b, i + 1, p);
    }
}

/// A comment among the declarations goes to the first `-->`, an instruction to the first
/// `?>`; quotes hide the end of an entity, and of a list of attributes.
pub proof fn declarations_go_to_their_end(b: Seq<u8>, i: int, p: int)
    requires
        0 <= i < p < b.len(),
    ensures
        stands_at(b, i, "<!--"@) && p >= i + 4 && stands_at(b, p, "-->"@) && (forall|k: int|
            i + 4 <= k < p ==> !#[trigger] stands_at(b, k, "-->"@)) ==> declaration_end(b, i) == Some(p + 2),
        stands_at(b, i, "<?"@) && p >= i + 2 && stands_at(b, p, "?>"@) && (forall|k: int|
            i + 2 <= k < p ==> !#[trigger] stands_at(b, k, "?>"@)) ==> declaration_end(b, i) == Some(p + 1),
        stands_at(b, i, "<!ENTITY"@) ==> declaration_end(b, i) == tag_end(b, i + 8, 0),
        stands_at(b, i, "<!ATTLIST"@) ==> declaration_end(b, i) == tag_end(b, i + 9, 0),
        stands_at(b, i, "<!NOTATION"@) ==> declaration_end(b, i) == tag_end(b, i + 10, 0),
        stands_at(b, i, "<!ELEMENT"@) && b[p] == GREATER && (forall|k: int| i < k < p ==> #[trigger] b[k] != GREATER)
            ==> declaration_end(b, i) == Some(p),
{
    reveal_strlit("<!--");
    reveal_strlit("-->");
    reveal_strlit("<?");
    reveal_strlit("?>");
    reveal_strlit("<!ENTITY");
    reveal_strlit("<!ATTLIST");
    reveal_strlit("<!NOTATION");
    reveal_strlit("<!ELEMENT");
    lemma_starts(b, i, "<!--"@);
    lemma_starts(b, i, "<?"@);
    lemma_starts(b, i, "<!ENTITY"@);
    lemma_starts(b, i, "<!ATTLIST"@);
    lemma_starts(b, i, "<!NOTATION"@);
    lemma_starts(b, i, "<!ELEMENT"@);
    if p >= i + 4 {
        first_place_is_found(b, i + 4, p, 0, "-->"@);
    }
    if p >= i + 2 {
        first_place_is_found(b, i + 2, p, 0, "?>"@);
    }
    first_place_is_found(b, i + 1, p, GREATER, seq![]);
}

proof fn lemma_starts(b: Seq<u8>, i: int, t: Seq<char>)
    ensures
        stands_at(b, i, t) && t.len() > 1 ==> b[i + 1] as char == t[1],
        stands_at(b, i, t) && t.len() > 2 ==> b[i + 2] as char == t[2],
        stands_at(b, i, t) && t.len() > 3 ==> b[i + 3] as char == t[3],
{
    if stands_at(b, i, t) {
        if t.len() > 1 {
            assert(b[i + 1] as char == t[1]);
        }
        if t.len() > 2 {
            assert(b[i + 2] as char == t[2]);
        }
        if t.len() > 3 {
            assert(b[i + 3] as char == t[3]);
        }
    }
}

/// A declaration of the encoding names UTF-8 in capitals or not, in quotes of either
/// kind; where it names anything else, the bytes are not read as UTF-8.
pub proof fn declared_encoding_counts(b: Seq<u8>, i: int, p: int)
    requires
        0 <= i < b.len(),
        stands_at(b, i, "encoding"@),
        value_start(b, i + 8) == Some(p),
    ensures
        is_utf8(b) ==> stands_uncased(b, p, "UTF-8"@) && p + 5 < b.len() && b[p + 5] == b[p - 1],
        forall|c: u8, t: char|
            'A' <= t <= 'Z' ==> (#[trigger] same_letter(c, t) <==> c as int == t as int || c as int == t as int + 32),
{
    if is_utf8(b) {
        assert(declares_utf8(b, i));
    }
    assert forall|c: u8, t: char| 'A' <= t <= 'Z' implies (#[trigger] same_letter(c, t) <==> c as int == t as int
        || c as int == t as int + 32) by {
        assert(c >= 0x61 ==> ((c - 0x20) as u8) as char as int == c - 32);
        assert((c as char) as int == c);
    }
}

/// Bytes as characters of one byte each.
pub open spec fn as_chars(b: Seq<u8>) -> Seq<char> {
    Seq::new(b.len(), |k: int| b[k] as char)
}

/// Whether a name is `t`, or ends with `t` behind the colon of a prefix.
pub open spec fn ends_in_name(s: Seq<char>, t: Seq<char>) -> bool {
    s == t || (s.len() > t.len() && s.skip(s.len() - t.len()) == t && s[s.len() - t.len() - 1] == ':')
}

/// The parser may descend through elements named `content` and `category`, with any
/// prefix, and through no others.
pub proof fn contents_and_categories_nest(name: Seq<u8>)
    ensures
        is_nesting(name) <==> ends_in_name(as_chars(name), "content"@) || ends_in_name(as_chars(name), "category"@),
{
    reveal_strlit("content");
    reveal_strlit("category");
    lemma_named(name, "content"@);
    lemma_named(name, "category"@);
}

proof fn lemma_named(name: Seq<u8>, t: Seq<char>)
    requires
        t.len() > 0,
    ensures
        is_named(name, 0, name.len() as int, t) <==> ends_in_name(as_chars(name), t),
{
    let s = as_chars(name);
    let n = name.len() as int;
    let d = n - t.len();
    if is_named(name, 0, n, t) {
        assert(s.skip(d) =~= t) by {
            assert forall|k: int| 0 <= k < t.len() implies s.skip(d)[k] == t[k] by {
                assert(name[d + k] as char == t[k]);
            }
        }
        if d == 0 {
            assert(s =~= t);
        } else {
            assert(name[d - 1] == COLON);
        }
    }
    if ends_in_name(s, t) {
        assert(s.skip(d) =~= t);
        assert forall|k: int| 0 <= k < t.len() implies name[d + k] as char == #[trigger] t[k] by {
            assert(s.skip(d)[k] == s[d + k]);
        }
        if d > 0 {
            assert(s[d - 1] == ':');
            assert(name[d - 1] as char == ':');
        }
    }
}

/// Where play times matter, the text of an element named `duration` has to fit as one.
pub proof fn durations_have_to_fit(b: Seq<u8>, i: int, open: Seq<Seq<u8>>, level: nat, clock: Option<Seq<u8>>, utf8: bool)
    requires
        0 <= i < b.len(),
        piece_at(b, i) is Some,
        (piece_at(b, i)->0).0 is Opening,
        !((piece_at(b, i)->0).0->empty),
        is_named(b, (piece_at(b, i)->0).0->Opening_from, (piece_at(b, i)->0).0->Opening_to, "duration"@),
        ({
            let text = (piece_at(b, i)->0).1;
            let end = (piece_at(b, text)->0).1;
            &&& i < text < b.len()
            &&& piece_at(b, text) is Some
            &&& (piece_at(b, text)->0).0 is Text
            &&& text < end < b.len()
            &&& piece_at(b, end) is Some
            &&& (piece_at(b, end)->0).0 is Closing
            &&& b.subrange((piece_at(b, end)->0).0->Closing_from, (piece_at(b, end)->0).0->Closing_to) == b.subrange(
                (piece_at(b, i)->0).0->Opening_from,
                (piece_at(b, i)->0).0->Opening_to,
            )
        }),
        is_harmless(b, i, open, level, clock, true, utf8),
    ensures
        time_fits(
            b.subrange(
                (piece_at(b, (piece_at(b, i)->0).1)->0).0->Text_from,
                (piece_at(b, (piece_at(b, i)->0).1)->0).0->Text_to,
            ),
            utf8,
        ),
{
    let name = b.subrange((piece_at(b, i)->0).0->Opening_from, (piece_at(b, i)->0).0->Opening_to);
    let text = (piece_at(b, i)->0).1;
    let end = (piece_at(b, text)->0).1;
    let said = b.subrange((piece_at(b, text)->0).0->Text_from, (piece_at(b, text)->0).0->Text_to);
    let none = Seq::<u8>::empty();
    assert(open.push(name).last() == name);
    assert(none + said =~= said);
    assert(is_harmless(b, text, open.push(name), level + 1, Some(none), true, utf8));
    assert(is_harmless(b, end, open.push(name), level + 1, Some(none + said), true, utf8));
}

/// Where play times matter, those in the attributes of elements named `text` and
/// `thumbnail` have to fit.
pub proof fn attributes_of_media_have_to_fit(
    b: Seq<u8>,
    i: int,
    open: Seq<Seq<u8>>,
    level: nat,
    clock: Option<Seq<u8>>,
    utf8: bool,
)
    requires
        0 <= i < b.len(),
        piece_at(b, i) is Some,
        (piece_at(b, i)->0).0 is Opening,
        is_harmless(b, i, open, level, clock, true, utf8),
    ensures
        ({
            let from = (piece_at(b, i)->0).0->Opening_from;
            let to = (piece_at(b, i)->0).0->Opening_to;
            let end = (piece_at(b, i)->0).0->end;
            is_named(b, from, to, "text"@) || is_named(b, from, to, "thumbnail"@) ==> attributes_fit(b, to, end, utf8) && (
            utf8 || !occurs(b, 0x1b, to, end))
        }),
{
}

/// An end with another name closes the element that is open, but its level stays; an
/// end where nothing is open is passed over. Neither weighs a play time.
pub proof fn end_of_another_name_leaves_its_level(
    b: Seq<u8>,
    i: int,
    open: Seq<Seq<u8>>,
    level: nat,
    clock: Option<Seq<u8>>,
    timed: bool,
    utf8: bool,
)
    requires
        0 <= i < b.len(),
        piece_at(b, i) is Some,
        (piece_at(b, i)->0).0 is Closing,
        i < (piece_at(b, i)->0).1 <= b.len(),
    ensures
        open.len() > 0 && open.last() != b.subrange(
            (piece_at(b, i)->0).0->Closing_from,
            (piece_at(b, i)->0).0->Closing_to,
        ) ==> is_harmless(b, i, open, level, clock, timed, utf8) == is_harmless(
            b,
            (piece_at(b, i)->0).1,
            open.drop_last(),
            level,
            None,
            timed,
            utf8,
        ),
        open.len() == 0 ==> is_harmless(b, i, open, level, clock, timed, utf8) == is_harmless(
            b,
            (piece_at(b, i)->0).1,
            open,
            level,
            None,
            timed,
            utf8,
        ),
{
}

/// Plain bytes: in UTF-8 those of ASCII, those that continue a character, and those that
/// start one below U+0640 or from U+2000 up to U+9FFF; otherwise those of ASCII but the
/// escape character.
pub proof fn plain_bytes_are_no_other_digits(c: u8)
    ensures
        is_plain(c, false) <==> c < 0x80 && c != 0x1b,
        is_plain(c, true) <==> c < 0x80 || (0x80 <= c <= 0xbf) || (0xc2 <= c <= 0xd8) || (0xe2 <= c <= 0xe9),
{
}

} // verus!
