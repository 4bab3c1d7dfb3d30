//! Doubles as values that can be ordered.
//!
//! A double that is a number is held by its place in the order of all doubles:
//! the doubles of one sign are ordered as their bit patterns. The library
//! compares doubles; sums and products of them are made outside of it.

use vstd::arithmetic::power2::{lemma_pow2_pos, lemma_pow2_strictly_increases, lemma_pow2_unfold, pow2};
use vstd::prelude::*;

verus! {

/// The bit of a double that holds its sign.
pub const SIGN_BIT: u64 = 0x8000_0000_0000_0000;

/// The bits of positive infinity: larger patterns without the sign are no numbers.
pub const INFINITY_BITS: u64 = 0x7ff0_0000_0000_0000;

/// A double that is a number, by its place in the order of the doubles.
/// Zero, of either sign, has the place 0.
#[derive(Clone, Copy, Debug, PartialEq, Eq, Structural)]
pub struct Score {
    pub place: i64,
}

/// The bits without the sign.
pub open spec fn magnitude(bits: u64) -> int {
    if bits >= SIGN_BIT {
        bits - SIGN_BIT
    } else {
        bits as int
    }
}

/// Whether a bit pattern is that of a number (infinities included).
pub open spec fn is_number(bits: u64) -> bool {
    magnitude(bits) <= INFINITY_BITS
}

/// The place of a bit pattern.
pub open spec fn place_of(bits: u64) -> int {
    if bits >= SIGN_BIT {
        -magnitude(bits)
    } else {
        magnitude(bits)
    }
}

/// What a magnitude denotes, in units of the smallest positive double: with an
/// exponent field of zero the fraction itself, otherwise the fraction with its
/// hidden bit, shifted by the exponent.
pub open spec fn magnitude_units(m: nat) -> nat {
    let exponent = m / 0x10_0000_0000_0000;
    let fraction = m % 0x10_0000_0000_0000;
    if exponent == 0 {
        fraction
    } else {
        (0x10_0000_0000_0000 + fraction) * pow2((exponent - 1) as nat)
    }
}

impl Score {
    /// The number, in units of the smallest positive double.
    pub open spec fn units(self) -> int {
        if self.place < 0 {
            -(magnitude_units((-self.place) as nat) as int)
        } else {
            magnitude_units(self.place as nat) as int
        }
    }

    /// The double with the given bits, if it is a number.
    pub fn from_bits(bits: u64) -> (r: Option<Score>)
        ensures
            match r {
                Some(s) => is_number(bits) && s.place == place_of(bits),
                None => !is_number(bits),
            },
    {
        if bits >= SIGN_BIT {
            let m: u64 = bits - SIGN_BIT;
            if m > INFINITY_BITS {
                None
            } else {
                Some(Score { place: -(m as i64) })
            }
        } else if bits > INFINITY_BITS {
            None
        } else {
            Some(Score { place: bits as i64 })
        }
    }

    /// The bits of the double; those of positive zero for a zero.
    pub fn to_bits(self) -> (r: u64)
        requires
            -INFINITY_BITS <= self.place <= INFINITY_BITS,
        ensures
            is_number(r),
            place_of(r) == self.place,
            self.place == 0 ==> r == 0,
    {
        if self.place < 0 {
            SIGN_BIT + (-self.place) as u64
        } else {
            self.place as u64
        }
    }

    /// Whether this number is smaller than the other.
    pub fn less(self, other: Score) -> (r: bool)
        ensures
            r == (self.units() < other.units()),
            r == (self.place < other.place),
    {
        proof {
            order_is_numeric(self, other);
        }
        self.place < other.place
    }
}

/// A magnitude denotes more than any smaller one.
proof fn lemma_magnitude_increases(a: nat, b: nat)
    requires
        a < b,
    ensures
        magnitude_units(a) < magnitude_units(b),
{
    let n: nat = 0x10_0000_0000_0000;
    let ea = a / n;
    let eb = b / n;
    let fa = a % n;
    let fb = b % n;
    assert(a == ea * n + fa && b == eb * n + fb) by {
        vstd::arithmetic::div_mod::lemma_fundamental_div_mod(a as int, n as int);
        vstd::arithmetic::div_mod::lemma_fundamental_div_mod(b as int, n as int);
    }
    assert(ea <= eb) by {
        vstd::arithmetic::div_mod::lemma_div_is_ordered(a as int, b as int, n as int);
    }
    if ea == eb {
        assert(fa < fb);
        if ea > 0 {
            let p = pow2((ea - 1) as nat);
            lemma_pow2_pos((ea - 1) as nat);
            assert((n + fa) * p < (n + fb) * p) by (nonlinear_arith)
                requires
                    fa < fb,
                    p > 0,
            ;
        }
    } else {
        let pb = pow2((eb - 1) as nat);
        lemma_pow2_pos((eb - 1) as nat);
        if ea == 0 {
            assert(n <= (n + fb) * pb) by (nonlinear_arith)
                requires
                    pb > 0,
            ;
        } else {
            let pa = pow2((ea - 1) as nat);
            lemma_pow2_pos((ea - 1) as nat);
            lemma_pow2_unfold(ea);
            if eb - 1 > ea {
                lemma_pow2_strictly_increases(ea, (eb - 1) as nat);
            }
            assert(2 * pa <= pb);
            assert((n + fa) * pa < (n + fb) * pb) by (nonlinear_arith)
                requires
                    fa < n,
                    2 * pa <= pb,
                    pa > 0,
            ;
        }
    }
}

/// A magnitude above zero denotes a positive number.
proof fn lemma_magnitude_positive(a: nat)
    requires
        a > 0,
    ensures
        magnitude_units(a) > 0,
{
    assert(magnitude_units(0) == 0);
    lemma_magnitude_increases(0, a);
}

/// The order of the places is the order of the numbers, and two scores have
/// the same place exactly where they are the same number.
pub proof fn order_is_numeric(a: Score, b: Score)
    ensures
        a.place < b.place <==> a.units() < b.units(),
        a.place == b.place <==> a.units() == b.units(),
{
    if a.place != b.place {
        let (x, y) = if a.place < b.place { (a, b) } else { (b, a) };
        if x.place >= 0 {
            lemma_magnitude_increases(x.place as nat, y.place as nat);
        } else if y.place < 0 {
            lemma_magnitude_increases((-y.place) as nat, (-x.place) as nat);
        } else {
            lemma_magnitude_positive((-x.place) as nat);
        }
        assert(x.units() < y.units());
    }
}

/// The bits of a double that is a number survive the way to a score and back,
/// but for the sign of a zero.
pub proof fn bits_survive(bits: u64, back: u64)
    requires
        is_number(bits),
        is_number(back),
        place_of(back) == place_of(bits),
        place_of(back) == 0 ==> back == 0,
    ensures
        back == bits || (bits == SIGN_BIT && back == 0),
{
}

/// Whether a score is a double next to `n / d`: it differs from it by no more than one
/// part in two to the power of 53.
pub open spec fn is_nearest(s: Score, n: int, d: int) -> bool {
    let one = Score { place: 0x3ff0_0000_0000_0000 }.units();
    -(n * one) <= 0x20_0000_0000_0000 * (d * s.units() - n * one) <= n * one
}

/// A double around one is nearest to `n / d` where its significand `m`, scaled by `f`,
/// shows it: `f` is two to the power of `k`, and counts from the exponent of 1/16.
pub proof fn significand_shows_nearest(s: Score, k: int, f: int, m: int, n: int, d: int)
    requires
        (k, f) == (0int, 1int) || (k, f) == (1int, 2int) || (k, f) == (2int, 4int) || (k, f) == (3int, 8int) || (k, f)
            == (4int, 16int) || (k, f) == (5int, 32int),
        0x10_0000_0000_0000 <= m < 0x20_0000_0000_0000,
        s.place == (1018 + k) * 0x10_0000_0000_0000 + m,
        -(n * 0x100_0000_0000_0000) <= 0x20_0000_0000_0000 * (d * m * f - n * 0x100_0000_0000_0000) <= n
            * 0x100_0000_0000_0000,
    ensures
        is_nearest(s, n, d),
{
    lemma_pow2_unfold(1019);
    lemma_pow2_unfold(1020);
    lemma_pow2_unfold(1021);
    lemma_pow2_unfold(1022);
    lemma_pow2_unfold(1023);
    lemma_pow2_pos(1018);
    let x = pow2(1018) as int;
    let one = Score { place: 0x3ff0_0000_0000_0000 };
    assert(one.units() == 0x100_0000_0000_0000 * x) by {
        assert(magnitude_units(0x3ff0_0000_0000_0000) == 0x10_0000_0000_0000 * pow2(1022));
    }
    assert(pow2((1018 + k) as nat) == f * x);
    let place = s.place as nat;
    assert(place / 0x10_0000_0000_0000 == 1019 + k && place % 0x10_0000_0000_0000 == m - 0x10_0000_0000_0000) by {
        assert(place == (1019 + k) * 0x10_0000_0000_0000 + (m - 0x10_0000_0000_0000));
    }
    assert(magnitude_units(place) == m * pow2((1018 + k) as nat));
    let u = s.units();
    assert(u == m * (f * x));
    let c = 0x100_0000_0000_0000int;
    let e = d * m * f - n * c;
    assert(d * (m * (f * x)) == (d * m * f) * x) by (nonlinear_arith);
    assert(n * (c * x) == (n * c) * x) by (nonlinear_arith);
    assert((d * m * f) * x - (n * c) * x == e * x) by (nonlinear_arith)
        requires
            e == d * m * f - n * c,
    ;
    assert(-(n * (c * x)) <= 0x20_0000_0000_0000 * (e * x) <= n * (c * x)) by (nonlinear_arith)
        requires
            x > 0,
            -(n * c) <= 0x20_0000_0000_0000 * e <= n * c,
    ;
}

/// The bits of a positive double are its place, and a sign turns the place around.
pub proof fn sign_turns_the_place_around(bits: u64)
    requires
        bits < 0x8000_0000_0000_0000,
    ensures
        place_of(bits) == bits,
        place_of((bits + 0x8000_0000_0000_0000) as u64) == -(bits as int),
        is_number(bits) <==> bits <= 0x7ff0_0000_0000_0000,
        is_number(bits) <==> is_number((bits + 0x8000_0000_0000_0000) as u64),
{
}

} // verus!
