//! Single-precision numbers, carried as bit patterns. Positions, hit points and
//! clocks are such numbers; arithmetic on them is the caller's, while the library
//! stores them, hashes them, sends them and compares them. A comparison is
//! decided on the pattern itself: sign and magnitude order the numbers, and a
//! magnitude past that of infinity is not a number.

use vstd::prelude::*;

verus! {

/// The sign bit of a pattern.
pub const SIGN: u32 = 0x8000_0000;

/// The magnitude of infinity.
pub const INF_MAG: u32 = 0x7F80_0000;

/// A single-precision number by its bit pattern.
#[derive(Clone, Copy, PartialEq, Eq, Structural, Debug)]
pub struct Num {
    pub bits: u32,
}

/// A point of the plane.
#[derive(Clone, Copy, PartialEq, Eq, Structural, Debug)]
pub struct V2 {
    pub x: Num,
    pub y: Num,
}

impl Num {
    /// The pattern without its sign.
    pub open spec fn magnitude(self) -> int {
        if self.bits >= SIGN {
            self.bits - SIGN
        } else {
            self.bits as int
        }
    }

    pub open spec fn is_nan(self) -> bool {
        self.magnitude() > INF_MAG
    }

    /// Orders the numbers: both zeros map to 0, negative numbers below it.
    pub open spec fn key(self) -> int {
        if self.bits >= SIGN {
            -self.magnitude()
        } else {
            self.magnitude()
        }
    }

    pub open spec fn spec_less(self, o: Num) -> bool {
        !self.is_nan() && !o.is_nan() && self.key() < o.key()
    }

    pub open spec fn spec_at_most(self, o: Num) -> bool {
        !self.is_nan() && !o.is_nan() && self.key() <= o.key()
    }

    pub open spec fn spec_positive(self) -> bool {
        !self.is_nan() && self.key() > 0
    }

    pub open spec fn spec_same(self, o: Num) -> bool {
        !self.is_nan() && !o.is_nan() && self.key() == o.key()
    }

    fn mag(self) -> (m: u32)
        ensures
            m == self.magnitude(),
    {
        if self.bits >= SIGN {
            self.bits - SIGN
        } else {
            self.bits
        }
    }

    fn signed(self) -> (k: i64)
        ensures
            k == self.key(),
    {
        if self.bits >= SIGN {
            -(self.mag() as i64)
        } else {
            self.bits as i64
        }
    }

    /// `self < o`.
    #[verifier::when_used_as_spec(spec_less)]
    pub fn less(self, o: Num) -> (r: bool)
        ensures
            r == self.spec_less(o),
    {
        self.mag() <= INF_MAG && o.mag() <= INF_MAG && self.signed() < o.signed()
    }

    /// `self <= o`.
    #[verifier::when_used_as_spec(spec_at_most)]
    pub fn at_most(self, o: Num) -> (r: bool)
        ensures
            r == self.spec_at_most(o),
    {
        self.mag() <= INF_MAG && o.mag() <= INF_MAG && self.signed() <= o.signed()
    }

    /// `self > 0`.
    #[verifier::when_used_as_spec(spec_positive)]
    pub fn positive(self) -> (r: bool)
        ensures
            r == self.spec_positive(),
    {
        0 < self.bits && self.bits <= INF_MAG
    }

    /// `self == o` as numbers: the two zeros are the same, and no pattern that is
    /// not a number equals anything.
    #[verifier::when_used_as_spec(spec_same)]
    pub fn same(self, o: Num) -> (r: bool)
        ensures
            r == self.spec_same(o),
    {
        self.mag() <= INF_MAG && o.mag() <= INF_MAG && self.signed() == o.signed()
    }

    pub open spec fn spec_least(self, o: Num) -> Num {
        if o.is_nan() || self.less(o) {
            self
        } else {
            o
        }
    }

    pub open spec fn spec_most(self, o: Num) -> Num {
        if o.is_nan() || o.less(self) {
            self
        } else {
            o
        }
    }

    pub open spec fn spec_within(self, lo: Num, hi: Num) -> Num {
        if self.less(lo) {
            lo
        } else if hi.less(self) {
            hi
        } else {
            self
        }
    }

    /// The lesser of two numbers; what is not a number gives way.
    #[verifier::when_used_as_spec(spec_least)]
    pub fn least(self, o: Num) -> (r: Num)
        ensures
            r == self.spec_least(o),
    {
        if o.mag() > INF_MAG || self.less(o) {
            self
        } else {
            o
        }
    }

    /// The greater of two numbers; what is not a number gives way.
    #[verifier::when_used_as_spec(spec_most)]
    pub fn most(self, o: Num) -> (r: Num)
        ensures
            r == self.spec_most(o),
    {
        if o.mag() > INF_MAG || o.less(self) {
            self
        } else {
            o
        }
    }

    /// The nearest number between two bounds. What is not a number stays as it is.
    #[verifier::when_used_as_spec(spec_within)]
    pub fn within(self, lo: Num, hi: Num) -> (r: Num)
        requires
            lo.at_most(hi),
        ensures
            r == self.spec_within(lo, hi),
    {
        if self.less(lo) {
            lo
        } else if hi.less(self) {
            hi
        } else {
            self
        }
    }
}

/// A number brought between two bounds is between them, and one that already was is left
/// as it is.
pub proof fn within_is_within(x: Num, lo: Num, hi: Num)
    requires
        lo.at_most(hi),
        !x.is_nan(),
    ensures
        lo.at_most(x.within(lo, hi)),
        x.within(lo, hi).at_most(hi),
        lo.at_most(x) && x.at_most(hi) ==> x.within(lo, hi) == x,
{
}

/// Comparison is a strict total order on the numbers, with both zeros equal.
pub proof fn less_is_a_total_order(a: Num, b: Num, c: Num)
    ensures
        !a.less(a),
        a.less(b) ==> !b.less(a),
        a.less(b) && b.less(c) ==> a.less(c),
        !a.is_nan() && !b.is_nan() ==> a.less(b) || b.less(a) || a.same(b),
        a.at_most(b) <==> a.less(b) || a.same(b),
        a.is_nan() ==> !a.less(b) && !b.less(a) && !a.same(b) && !b.same(a),
{
}

/// 2 to the power of `e`.
pub open spec fn two_to(e: nat) -> int
    decreases e,
{
    if e == 0 {
        1
    } else {
        2 * two_to((e - 1) as nat)
    }
}

/// The exponent of a positive whole number: how often it can be halved before it is 1.
pub open spec fn exponent(n: int) -> nat
    decreases n,
{
    if n <= 1 {
        0
    } else {
        1 + exponent(n / 2)
    }
}

/// The bit pattern of a whole number below 2^24: a biased exponent and a fraction.
pub open spec fn whole_bits(n: int) -> int {
    if n <= 0 {
        0
    } else {
        let e = exponent(n);
        (127 + e) * 0x80_0000 + (n - two_to(e)) * two_to((23 - e) as nat)
    }
}

proof fn lemma_two_to(e: nat)
    ensures
        two_to(e) >= 1,
        two_to(e + 1) == 2 * two_to(e),
    decreases e,
{
    if e > 0 {
        lemma_two_to((e - 1) as nat);
    }
}

proof fn lemma_two_to_sum(a: nat, b: nat)
    ensures
        two_to(a) * two_to(b) == two_to(a + b),
    decreases a,
{
    if a > 0 {
        lemma_two_to_sum((a - 1) as nat, b);
        let x = two_to((a - 1) as nat);
        let y = two_to(b);
        assert((2 * x) * y == 2 * (x * y)) by (nonlinear_arith);
    } else {
        assert(1 * two_to(b) == two_to(b));
    }
}

proof fn lemma_exponent(n: int)
    requires
        n >= 1,
    ensures
        two_to(exponent(n)) <= n < two_to(exponent(n) + 1),
    decreases n,
{
    lemma_two_to(exponent(n));
    if n > 1 {
        lemma_exponent(n / 2);
        lemma_two_to(exponent(n / 2));
        lemma_two_to(exponent(n / 2) + 1);
    }
}

proof fn lemma_two_to_grows(a: nat, b: nat)
    requires
        a <= b,
    ensures
        two_to(a) <= two_to(b),
    decreases b - a,
{
    if a < b {
        lemma_two_to_grows(a, (b - 1) as nat);
        lemma_two_to((b - 1) as nat);
    }
}

proof fn lemma_two_to_23()
    ensures
        two_to(23) == 0x80_0000,
        two_to(24) == 0x100_0000,
{
    reveal_with_fuel(two_to, 26);
}

proof fn lemma_exponent_bound(n: int)
    requires
        1 <= n < 0x100_0000,
    ensures
        exponent(n) <= 23,
{
    lemma_exponent(n);
    lemma_two_to_23();
    if exponent(n) >= 24 {
        lemma_two_to_grows(24, exponent(n));
    }
}

/// What makes up the pattern of a whole number.
proof fn lemma_whole_parts(n: int)
    requires
        1 <= n < 0x100_0000,
    ensures
        exponent(n) <= 23,
        0 <= (n - two_to(exponent(n))) * two_to((23 - exponent(n)) as nat) < 0x80_0000,
        0x3F80_0000 <= whole_bits(n) < 0x4B80_0000,
{
    lemma_exponent(n);
    lemma_exponent_bound(n);
    lemma_two_to_23();
    let e = exponent(n);
    let f = two_to((23 - e) as nat);
    lemma_two_to((23 - e) as nat);
    lemma_two_to(e);
    lemma_two_to_sum(e, (23 - e) as nat);
    let d = n - two_to(e);
    assert(0 <= d * f && d * f < two_to(e) * f) by (nonlinear_arith)
        requires
            0 <= d < two_to(e),
            f >= 1,
    ;
}

/// Whole numbers keep their order as bit patterns, so that comparing patterns compares
/// the numbers.
pub proof fn whole_numbers_are_ordered(a: int, b: int)
    requires
        0 <= a < b < 0x100_0000,
    ensures
        0 <= whole_bits(a) < whole_bits(b) < INF_MAG,
{
    lemma_whole_parts(b);
    if a > 0 {
        lemma_whole_parts(a);
        lemma_exponent(a);
        lemma_exponent(b);
        let ea = exponent(a);
        let eb = exponent(b);
        if ea == eb {
            let f = two_to((23 - ea) as nat);
            lemma_two_to((23 - ea) as nat);
            assert((a - two_to(ea)) * f < (b - two_to(ea)) * f) by (nonlinear_arith)
                requires
                    a < b,
                    f >= 1,
            ;
        } else if ea > eb {
            lemma_two_to_grows(eb + 1, ea);
        } else {
            assert((127 + ea) * 0x80_0000 + 0x80_0000 <= (127 + eb) * 0x80_0000);
        }
    }
}

impl Num {
    pub open spec fn spec_whole(n: u32) -> Num {
        Num { bits: whole_bits(n as int) as u32 }
    }

    pub open spec fn spec_integer(n: i32) -> Num {
        if n < 0 {
            Num { bits: (SIGN + whole_bits(-n)) as u32 }
        } else {
            Num { bits: whole_bits(n as int) as u32 }
        }
    }

    /// A whole number, which may be negative.
    #[verifier::when_used_as_spec(spec_integer)]
    pub fn integer(n: i32) -> (r: Num)
        requires
            -0x100_0000 < n < 0x100_0000,
        ensures
            r == Num::spec_integer(n),
    {
        if n < 0 {
            proof {
                lemma_whole_parts(-n);
            }
            Num { bits: SIGN + Num::whole((-n) as u32).bits }
        } else {
            Num::whole(n as u32)
        }
    }

    /// A whole number.
    #[verifier::when_used_as_spec(spec_whole)]
    pub fn whole(n: u32) -> (r: Num)
        requires
            n < 0x100_0000,
        ensures
            r == Num::spec_whole(n),
    {
        if n == 0 {
            return Num { bits: 0 };
        }
        let mut e: u32 = 0;
        let mut p: u32 = 1;
        let mut rest: u32 = n;
        proof {
            lemma_exponent_bound(n as int);
        }
        while rest > 1
            invariant
                1 <= rest,
                1 <= n < 0x100_0000,
                exponent(n as int) == e + exponent(rest as int),
                exponent(n as int) <= 23,
                p == two_to(e as nat),
                e <= 23,
                p <= 0x80_0000,
            decreases rest,
        {
            proof {
                lemma_two_to(e as nat);
                lemma_two_to_grows((e + 1) as nat, 23);
                lemma_two_to_23();
            }
            rest = rest / 2;
            e = e + 1;
            p = p * 2;
        }
        let mut f: u32 = 1;
        let mut k: u32 = e;
        proof {
            lemma_whole_parts(n as int);
            lemma_exponent(n as int);
        }
        while k < 23
            invariant
                e <= k <= 23,
                f == two_to((k - e) as nat),
                f <= 0x80_0000,
            decreases 23 - k,
        {
            proof {
                lemma_two_to((k - e) as nat);
                lemma_two_to_grows((k - e + 1) as nat, 23);
                lemma_two_to_23();
            }
            f = f * 2;
            k = k + 1;
        }
        Num { bits: (127 + e) * 0x80_0000 + (n - p) * f }
    }
}

/// The bit pattern of a fraction of 2^24: that of its numerator, 24 powers of two lower.
pub open spec fn unit_bits(k: int) -> int {
    if k <= 0 {
        0
    } else {
        whole_bits(k) - 24 * 0x80_0000
    }
}

impl Num {
    pub open spec fn spec_unit(k: u32) -> Num {
        Num { bits: unit_bits(k as int) as u32 }
    }

    /// A fraction of 2^24.
    #[verifier::when_used_as_spec(spec_unit)]
    pub fn unit(k: u32) -> (r: Num)
        requires
            k < 0x100_0000,
        ensures
            r == Num::spec_unit(k),
    {
        if k == 0 {
            return Num { bits: 0 };
        }
        proof {
            lemma_whole_parts(k as int);
        }
        let w = Num::whole(k);
        Num { bits: w.bits - 24 * 0x80_0000 }
    }
}

/// Fractions keep their order, and are all below one.
pub proof fn fractions_are_ordered(a: int, b: int)
    requires
        0 <= a < b < 0x100_0000,
    ensures
        0 <= unit_bits(a) < unit_bits(b) < 0x3F80_0000,
{
    lemma_whole_parts(b);
    if a > 0 {
        whole_numbers_are_ordered(a, b);
        lemma_whole_parts(a);
    }
}

/// Whole numbers compare as they do, below zero too.
pub proof fn integers_are_ordered(a: i32, b: i32)
    requires
        -0x100_0000 < a < 0x100_0000,
        -0x100_0000 < b < 0x100_0000,
    ensures
        Num::integer(a).less(Num::integer(b)) <==> a < b,
        Num::integer(a).at_most(Num::integer(b)) <==> a <= b,
{
    lemma_integer_key(a);
    lemma_integer_key(b);
    let (x, y) = (a as int, b as int);
    if 0 <= x < y {
        whole_numbers_are_ordered(x, y);
    } else if 0 <= y < x {
        whole_numbers_are_ordered(y, x);
    } else if x < y <= 0 {
        whole_numbers_are_ordered(-y, -x);
    } else if y < x <= 0 {
        whole_numbers_are_ordered(-x, -y);
    }
    if x < 0 {
        whole_numbers_are_ordered(0, -x);
    } else if x > 0 {
        whole_numbers_are_ordered(0, x);
    }
    if y < 0 {
        whole_numbers_are_ordered(0, -y);
    } else if y > 0 {
        whole_numbers_are_ordered(0, y);
    }
}

proof fn lemma_integer_key(a: i32)
    requires
        -0x100_0000 < a < 0x100_0000,
    ensures
        !Num::integer(a).is_nan(),
        Num::integer(a).key() == (if a < 0 {
            -whole_bits(-a)
        } else {
            whole_bits(a as int)
        }),
{
    if a < 0 {
        whole_numbers_are_ordered(0, -a);
    } else if a > 0 {
        whole_numbers_are_ordered(0, a as int);
    }
}

} // verus!
