//! Numbers as text, and the hash that names a text.

use crate::text::chars_of;
use vstd::prelude::*;
use vstd::string::StringSliceAdditionalSpecFns;

verus! {

/// The character of a decimal digit.
pub open spec fn digit(d: nat) -> char {
    ('0' as nat + d) as char
}

/// A natural number in decimal notation.
pub open spec fn decimal(n: nat) -> Seq<char>
    decreases n,
{
    if n < 10 {
        seq![digit(n)]
    } else {
        decimal(n / 10).push(digit(n % 10))
    }
}

/// An integer in decimal notation, with a minus sign where it is negative.
pub open spec fn signed_decimal(n: int) -> Seq<char> {
    if n < 0 {
        seq!['-'] + decimal((-n) as nat)
    } else {
        decimal(n as nat)
    }
}

/// Writes a number behind `out`.
fn push_digits(out: &mut String, n: u64)
    ensures
        final(out)@ == old(out)@ + decimal(n as nat),
    decreases n,
{
    if n >= 10 {
        push_digits(out, n / 10);
    }
    let d: u8 = 48u8 + (n % 10) as u8;
    out.push(d as char);
    assert(out@ =~= old(out)@ + decimal(n as nat));
}

/// Prints a number.
pub fn print_number(n: u64) -> (r: String)
    ensures
        r@ == decimal(n as nat),
{
    let mut out = String::new();
    push_digits(&mut out, n);
    assert(out@ =~= decimal(n as nat));
    out
}

/// Prints an integer.
pub fn print_integer(n: i64) -> (r: String)
    ensures
        r@ == signed_decimal(n as int),
{
    let mut out = String::new();
    if n < 0 {
        out.push('-');
        let m: u64 = (-(n as i128)) as u64;
        push_digits(&mut out, m);
        assert(out@ =~= signed_decimal(n as int));
    } else {
        push_digits(&mut out, n as u64);
        assert(out@ =~= signed_decimal(n as int));
    }
    out
}

/// Whether a character is a decimal digit.
pub open spec fn is_digit(c: char) -> bool {
    '0' <= c <= '9'
}

/// The number that a sequence of digits denotes.
pub open spec fn digits_value(s: Seq<char>) -> nat
    decreases s.len(),
{
    if s.len() == 0 {
        0
    } else {
        digits_value(s.drop_last()) * 10 + (s.last() as nat - '0' as nat) as nat
    }
}

/// Whether `s` is a decimal number: at least one digit and nothing else.
pub open spec fn all_digits(s: Seq<char>) -> bool {
    s.len() > 0 && forall|i: int| 0 <= i < s.len() ==> is_digit(#[trigger] s[i])
}

/// What stands behind an optional sign.
pub open spec fn unsigned_part(s: Seq<char>) -> Seq<char> {
    if s.len() > 0 && (s[0] == '-' || s[0] == '+') {
        s.drop_first()
    } else {
        s
    }
}

/// The integer that `s` denotes without regard to its size.
pub open spec fn integer_value(s: Seq<char>) -> int {
    if s.len() > 0 && s[0] == '-' {
        -(digits_value(unsigned_part(s)) as int)
    } else {
        digits_value(unsigned_part(s)) as int
    }
}

/// The integer of 64 bits that `s` denotes: an optional sign, then digits only.
/// There is none where `s` has another form or denotes a number out of range.
pub open spec fn parsed_integer(s: Seq<char>) -> Option<i64> {
    if all_digits(unsigned_part(s)) && i64::MIN <= integer_value(s) <= i64::MAX {
        Some(integer_value(s) as i64)
    } else {
        None
    }
}

/// The value of a prefix is at most the value of the whole.
proof fn lemma_prefix_value(s: Seq<char>, k: int)
    requires
        0 <= k <= s.len(),
        forall|i: int| 0 <= i < s.len() ==> is_digit(#[trigger] s[i]),
    ensures
        digits_value(s.take(k)) <= digits_value(s),
    decreases s.len(),
{
    if k == s.len() {
        assert(s.take(k) =~= s);
    } else {
        lemma_prefix_value(s.drop_last(), k);
        assert(s.drop_last().take(k) =~= s.take(k));
    }
}

/// Reads an integer of 64 bits.
pub fn parse_integer(s: &str) -> (r: Option<i64>)
    ensures
        r == parsed_integer(s@),
{
    let v = chars_of(s);
    let negative: bool = v.len() > 0 && v[0] == '-';
    let start: usize = if v.len() > 0 && (v[0] == '-' || v[0] == '+') { 1 } else { 0 };
    let ghost body = unsigned_part(s@);
    assert(body =~= v@.skip(start as int));
    if v.len() == start {
        return None;
    }
    let mut acc: u64 = 0;
    let mut i: usize = start;
    while i < v.len()
        invariant
            start <= i <= v@.len(),
            v@ == s@,
            body == v@.skip(start as int),
            body == unsigned_part(s@),
            body.len() == v@.len() - start,
            acc <= 0x8000_0000_0000_0000,
            negative == (s@.len() > 0 && s@[0] == '-'),
            acc == digits_value(body.take(i - start)),
            forall|j: int| 0 <= j < i - start ==> is_digit(#[trigger] body[j]),
        decreases v.len() - i,
    {
        let c: char = v[i];
        assert(body[i - start] == c);
        if !('0' <= c && c <= '9') {
            return None;
        }
        proof {
            assert(body.take(i + 1 - start).drop_last() =~= body.take(i - start));
            assert(body.take(i + 1 - start).last() == c);
        }
        let next: u128 = acc as u128 * 10 + (c as u32 - '0' as u32) as u128;
        assert(next == digits_value(body.take(i + 1 - start)));
        if next > 0x8000_0000_0000_0000 {
            proof {
                if all_digits(body) {
                    lemma_prefix_value(body, i + 1 - start);
                }
            }
            return None;
        }
        acc = next as u64;
        i = i + 1;
    }
    assert(body.take(i - start) =~= body);
    if negative {
        Some((-(acc as i128)) as i64)
    } else if acc == 0x8000_0000_0000_0000 {
        None
    } else {
        Some(acc as i64)
    }
}

/// Decimal notation consists of digits.
proof fn lemma_decimal_digits(n: nat)
    ensures
        all_digits(decimal(n)),
        digits_value(decimal(n)) == n,
    decreases n,
{
    if n < 10 {
        assert(decimal(n).drop_last() =~= Seq::<char>::empty());
        assert(digits_value(decimal(n).drop_last()) == 0);
    } else {
        lemma_decimal_digits(n / 10);
        assert(decimal(n).drop_last() =~= decimal(n / 10));
    }
}

/// Reading undoes printing: a printed integer is read back as itself.
pub proof fn printed_integer_is_read_back(n: i64)
    ensures
        parsed_integer(signed_decimal(n as int)) == Some(n),
{
    let s = signed_decimal(n as int);
    if n < 0 {
        lemma_decimal_digits((-(n as int)) as nat);
        assert(s.drop_first() =~= decimal((-(n as int)) as nat));
    } else {
        lemma_decimal_digits(n as nat);
        assert(is_digit(s[0]));
    }
}

/// A printed integer holds no character but digits and the minus sign.
pub proof fn printed_integer_characters(n: int)
    ensures
        forall|i: int|
            0 <= i < signed_decimal(n).len() ==> is_digit(#[trigger] signed_decimal(n)[i])
                || signed_decimal(n)[i] == '-',
{
    if n < 0 {
        lemma_decimal_digits((-n) as nat);
        assert(signed_decimal(n).drop_first() =~= decimal((-n) as nat));
        assert forall|i: int| 0 <= i < signed_decimal(n).len() implies is_digit(
            #[trigger] signed_decimal(n)[i],
        ) || signed_decimal(n)[i] == '-' by {
            if i > 0 {
                assert(signed_decimal(n)[i] == signed_decimal(n).drop_first()[i - 1]);
            }
        }
    } else {
        lemma_decimal_digits(n as nat);
    }
}

/// The character of a hexadecimal digit.
pub open spec fn hex_digit(d: nat) -> char {
    if d < 10 {
        ('0' as nat + d) as char
    } else {
        ('a' as nat + d - 10) as char
    }
}

/// The lowest `k` hexadecimal digits of `n`, padded with zeros.
pub open spec fn hex(n: nat, k: nat) -> Seq<char>
    decreases k,
{
    if k == 0 {
        seq![]
    } else {
        hex(n / 16, (k - 1) as nat).push(hex_digit(n % 16))
    }
}

/// Writes the lowest `k` hexadecimal digits of `n` behind `out`.
fn push_hex(out: &mut String, n: u64, k: u8)
    ensures
        final(out)@ == old(out)@ + hex(n as nat, k as nat),
    decreases k,
{
    if k > 0 {
        push_hex(out, n / 16, k - 1);
        let d: u8 = (n % 16) as u8;
        let c: u8 = if d < 10 { 48u8 + d } else { 97u8 + (d - 10) };
        out.push(c as char);
    }
    assert(out@ =~= old(out)@ + hex(n as nat, k as nat));
}

/// The FNV-1a hash of a sequence of bytes.
pub open spec fn fnv1a(bytes: Seq<u8>) -> u64
    decreases bytes.len(),
{
    if bytes.len() == 0 {
        0xcbf2_9ce4_8422_2325
    } else {
        (fnv1a(bytes.drop_last()) ^ (bytes.last() as u64)).wrapping_mul(0x0000_0100_0000_01b3)
    }
}

/// Hashes the bytes of a text.
pub fn hash_text(s: &str) -> (r: u64)
    ensures
        r == fnv1a(s.spec_bytes()),
{
    let bytes = s.as_bytes();
    let mut hash: u64 = 0xcbf2_9ce4_8422_2325;
    let mut i: usize = 0;
    while i < bytes.len()
        invariant
            i <= bytes@.len(),
            hash == fnv1a(bytes@.take(i as int)),
        decreases bytes.len() - i,
    {
        assert(bytes@.take(i + 1).drop_last() =~= bytes@.take(i as int));
        hash = (hash ^ (bytes[i] as u64)).wrapping_mul(0x0000_0100_0000_01b3);
        i = i + 1;
    }
    assert(bytes@.take(i as int) =~= bytes@);
    hash
}

/// The name of a text: a prefix, then the hash of its UTF-8 bytes in 16 digits.
pub open spec fn content_name(prefix: Seq<char>, text: Seq<char>) -> Seq<char> {
    prefix + hex(fnv1a(vstd::utf8::encode_utf8(text)) as nat, 16)
}

/// Names a text by its content.
pub fn name_of(prefix: &str, s: &str) -> (r: String)
    ensures
        r@ == content_name(prefix@, s@),
{
    let mut out = String::new();
    out.append(prefix);
    push_hex(&mut out, hash_text(s), 16);
    assert(out@ =~= content_name(prefix@, s@));
    out
}

/// Decimal notation has digits only, no zero in front of others, and denotes its number.
pub proof fn decimal_denotes_its_number(n: nat)
    ensures
        all_digits(decimal(n)),
        digits_value(decimal(n)) == n,
        decimal(n)[0] == '0' <==> n == 0,
    decreases n,
{
    lemma_decimal_digits(n);
    if n >= 10 {
        decimal_denotes_its_number(n / 10);
        lemma_decimal_digits(n / 10);
        assert(decimal(n)[0] == decimal(n / 10)[0]);
    }
}

/// Zeros in front of a number and a plus sign change nothing, a minus sign turns the
/// number around.
pub proof fn signs_and_zeros_are_read(s: Seq<char>)
    requires
        all_digits(s),
    ensures
        parsed_integer(seq!['0'] + s) == parsed_integer(s),
        parsed_integer(seq!['+'] + s) == parsed_integer(s),
        parsed_integer(s) is Some ==> parsed_integer(seq!['-'] + s) == Some((-(parsed_integer(s)->0)) as i64),
        parsed_integer(s) is Some <==> digits_value(s) <= i64::MAX,
        parsed_integer(s) is Some ==> parsed_integer(s)->0 == digits_value(s),
{
    let zero = seq!['0'] + s;
    let plus = seq!['+'] + s;
    let minus = seq!['-'] + s;
    assert(is_digit(s[0]));
    assert(plus.drop_first() =~= s);
    assert(minus.drop_first() =~= s);
    assert forall|i: int| 0 <= i < zero.len() implies is_digit(#[trigger] zero[i]) by {
        if i > 0 {
            assert(zero[i] == s[i - 1]);
        }
    }
    lemma_leading_zero(s);
}

proof fn lemma_leading_zero(s: Seq<char>)
    ensures
        digits_value(seq!['0'] + s) == digits_value(s),
    decreases s.len(),
{
    let zero = seq!['0'] + s;
    if s.len() == 0 {
        assert(zero.drop_last() =~= Seq::<char>::empty());
        assert(digits_value(zero.drop_last()) == 0);
    } else {
        lemma_leading_zero(s.drop_last());
        assert(zero.drop_last() =~= seq!['0'] + s.drop_last());
    }
}

/// Only digits, behind a sign at most, are read as a number.
pub proof fn nothing_but_digits_is_read(s: Seq<char>, i: int)
    requires
        parsed_integer(s) is Some,
        0 <= i < s.len(),
    ensures
        '0' <= s[i] <= '9' || (i == 0 && (s[0] == '-' || s[0] == '+') && s.len() > 1),
{
    let body = unsigned_part(s);
    if body.len() == s.len() {
        assert(is_digit(body[i]));
    } else if i > 0 {
        assert(body[i - 1] == s[i]);
        assert(is_digit(body[i - 1]));
    }
}

/// The digits of a hexadecimal number: the last is the rest by sixteen, the others
/// are those of the sixteenth part.
pub proof fn hexadecimal_goes_digit_by_digit(n: nat, d: nat, k: nat)
    requires
        d < 16,
    ensures
        hex(n * 16 + d, k + 1) == hex(n, k).push(hex_digit(d)),
        hex(n, k).len() == k,
        d < 10 ==> hex_digit(d) as int == '0' as int + d,
        d >= 10 ==> hex_digit(d) as int == 'a' as int + d - 10,
    decreases k,
{
    assert((n * 16 + d) / 16 == n && (n * 16 + d) % 16 == d) by (nonlinear_arith)
        requires
            d < 16,
    ;
    if k > 0 {
        hexadecimal_goes_digit_by_digit(n / 16, d, (k - 1) as nat);
    }
}

/// The hash takes one byte after the other: each is mixed into what the bytes before
/// it gave, which is then multiplied by the prime.
pub proof fn hash_takes_byte_by_byte(bytes: Seq<u8>, b: u8)
    ensures
        fnv1a(Seq::empty()) == 14695981039346656037,
        fnv1a(bytes.push(b)) == ((fnv1a(bytes) ^ (b as u64)) * 1099511628211) % 0x1_0000_0000_0000_0000,
{
    assert(bytes.push(b).drop_last() =~= bytes);
}

/// A name is its prefix and sixteen digits behind it; texts with the same bytes have the
/// same name.
pub proof fn name_has_its_prefix(prefix: Seq<char>, text: Seq<char>)
    ensures
        prefix.is_prefix_of(content_name(prefix, text)),
        content_name(prefix, text).len() == prefix.len() + 16,
        content_name(prefix, text).skip(prefix.len() as int) == content_name(seq![], text),
{
    let digits = hex(fnv1a(vstd::utf8::encode_utf8(text)) as nat, 16);
    hexadecimal_goes_digit_by_digit(fnv1a(vstd::utf8::encode_utf8(text)) as nat, 0, 16);
    assert((prefix + digits).take(prefix.len() as int) =~= prefix);
    assert((prefix + digits).skip(prefix.len() as int) =~= Seq::<char>::empty() + digits);
}

} // verus!
