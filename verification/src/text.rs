//! Numbers as text and text as numbers: decimal digits, screen geometries of the form
//! `WxH+X+Y`, and network addresses with a port.

use vstd::prelude::*;
use vstd::string::*;

verus! {

/// The character of a decimal digit.
pub open spec fn digit_char(d: int) -> char {
    if d == 0 {
        '0'
    } else if d == 1 {
        '1'
    } else if d == 2 {
        '2'
    } else if d == 3 {
        '3'
    } else if d == 4 {
        '4'
    } else if d == 5 {
        '5'
    } else if d == 6 {
        '6'
    } else if d == 7 {
        '7'
    } else if d == 8 {
        '8'
    } else {
        '9'
    }
}

/// The decimal digits of a number, without leading zeros.
pub open spec fn decimal(n: nat) -> Seq<char>
    decreases n,
{
    if n < 10 {
        seq![digit_char(n as int)]
    } else {
        decimal(n / 10).push(digit_char((n % 10) as int))
    }
}

/// The decimal digits of a number, in at least two places.
pub open spec fn two_places(n: nat) -> Seq<char> {
    if n < 10 {
        seq!['0', digit_char(n as int)]
    } else {
        decimal(n)
    }
}

/// The value of a decimal digit.
pub open spec fn digit_value(c: char) -> Option<int> {
    if c == '0' {
        Some(0int)
    } else if c == '1' {
        Some(1int)
    } else if c == '2' {
        Some(2int)
    } else if c == '3' {
        Some(3int)
    } else if c == '4' {
        Some(4int)
    } else if c == '5' {
        Some(5int)
    } else if c == '6' {
        Some(6int)
    } else if c == '7' {
        Some(7int)
    } else if c == '8' {
        Some(8int)
    } else if c == '9' {
        Some(9int)
    } else {
        None
    }
}

pub open spec fn all_digits(s: Seq<char>) -> bool {
    forall|i: int| 0 <= i < s.len() ==> digit_value(#[trigger] s[i]) is Some
}

/// The number that a row of digits stands for.
pub open spec fn value_of(s: Seq<char>) -> int
    decreases s.len(),
{
    if s.len() == 0 {
        0
    } else {
        value_of(s.drop_last()) * 10 + digit_value(s.last())->Some_0
    }
}

/// A number's digits stand for it.
pub proof fn decimal_roundtrip(n: nat)
    ensures
        decimal(n).len() > 0,
        all_digits(decimal(n)),
        value_of(decimal(n)) == n,
    decreases n,
{
    if n < 10 {
        let s = decimal(n);
        assert(s.drop_last() =~= Seq::<char>::empty());
        assert(value_of(s.drop_last()) == 0);
        assert(s.last() == digit_char(n as int));
    } else {
        decimal_roundtrip(n / 10);
        let s = decimal(n);
        assert(s.drop_last() =~= decimal(n / 10));
        assert(s.last() == digit_char((n % 10) as int));
    }
}

/// Different numbers have different digits.
pub proof fn decimal_is_injective(a: nat, b: nat)
    requires
        decimal(a) == decimal(b),
    ensures
        a == b,
{
    decimal_roundtrip(a);
    decimal_roundtrip(b);
}

pub(crate) fn digit_text(d: u32) -> (r: &'static str)
    requires
        d < 10,
    ensures
        r@ == seq![digit_char(d as int)],
{
    proof {
        reveal_strlit("0");
        reveal_strlit("1");
        reveal_strlit("2");
        reveal_strlit("3");
        reveal_strlit("4");
        reveal_strlit("5");
        reveal_strlit("6");
        reveal_strlit("7");
        reveal_strlit("8");
        reveal_strlit("9");
    }
    let r: &'static str = if d == 0 {
        "0"
    } else if d == 1 {
        "1"
    } else if d == 2 {
        "2"
    } else if d == 3 {
        "3"
    } else if d == 4 {
        "4"
    } else if d == 5 {
        "5"
    } else if d == 6 {
        "6"
    } else if d == 7 {
        "7"
    } else if d == 8 {
        "8"
    } else {
        "9"
    };
    assert(r@ =~= seq![digit_char(d as int)]);
    r
}

/// Appends a number in decimal.
pub fn push_decimal(s: &mut String, n: u32)
    ensures
        final(s)@ == old(s)@ + decimal(n as nat),
    decreases n,
{
    let ghost s0 = s@;
    if n >= 10 {
        push_decimal(s, n / 10);
    }
    s.append(digit_text(n % 10));
    assert(s@ =~= s0 + decimal(n as nat));
}

/// Appends a number in decimal, in at least two places.
pub fn push_two_places(s: &mut String, n: u32)
    ensures
        final(s)@ == old(s)@ + two_places(n as nat),
{
    let ghost s0 = s@;
    if n < 10 {
        s.append(digit_text(0));
        s.append(digit_text(n));
        assert(s@ =~= s0 + two_places(n as nat));
    } else {
        push_decimal(s, n);
    }
}

/// A number in decimal.
pub fn dec(n: u32) -> (r: String)
    ensures
        r@ == decimal(n as nat),
{
    let mut s: String = String::new();
    push_decimal(&mut s, n);
    assert(s@ =~= decimal(n as nat));
    s
}

fn digit_of_char(c: char) -> (r: Option<u32>)
    ensures
        match r {
            Some(d) => digit_value(c) == Some(d as int) && d < 10,
            None => digit_value(c) is None,
        },
{
    if c == '0' {
        Some(0)
    } else if c == '1' {
        Some(1)
    } else if c == '2' {
        Some(2)
    } else if c == '3' {
        Some(3)
    } else if c == '4' {
        Some(4)
    } else if c == '5' {
        Some(5)
    } else if c == '6' {
        Some(6)
    } else if c == '7' {
        Some(7)
    } else if c == '8' {
        Some(8)
    } else if c == '9' {
        Some(9)
    } else {
        None
    }
}

/// Where a character first stands, or the length of the text.
pub open spec fn first_at(s: Seq<char>, c: char) -> int
    decreases s.len(),
{
    if s.len() == 0 || s[0] == c {
        0
    } else {
        1 + first_at(s.drop_first(), c)
    }
}

/// What stands before and after a character's first place; nothing if it stands nowhere.
pub open spec fn split_once(s: Seq<char>, c: char) -> Option<(Seq<char>, Seq<char>)> {
    let i = first_at(s, c);
    if i < s.len() {
        Some((s.take(i), s.skip(i + 1)))
    } else {
        None
    }
}

/// The whole number written in a text: digits, after a sign if there is one. A minus
/// sign is read only where negative numbers are.
pub open spec fn number_in(s: Seq<char>, negative: bool) -> Option<int> {
    let minus = negative && s.len() > 0 && s[0] == '-';
    let signed = minus || (s.len() > 0 && s[0] == '+');
    let d = if signed {
        s.skip(1)
    } else {
        s
    };
    if d.len() == 0 || !all_digits(d) {
        None
    } else if minus {
        Some(-value_of(d))
    } else {
        Some(value_of(d))
    }
}

/// A number, if it lies within bounds.
pub open spec fn bounded(v: Option<int>, lo: int, hi: int) -> Option<int> {
    match v {
        Some(n) => if lo <= n <= hi {
            Some(n)
        } else {
            None
        },
        None => None,
    }
}

proof fn lemma_first_at(s: Seq<char>, c: char)
    ensures
        0 <= first_at(s, c) <= s.len(),
        forall|k: int| 0 <= k < first_at(s, c) ==> #[trigger] s[k] != c,
        first_at(s, c) < s.len() ==> s[first_at(s, c)] == c,
    decreases s.len(),
{
    if s.len() > 0 && s[0] != c {
        let t = s.drop_first();
        lemma_first_at(t, c);
        assert forall|k: int| 0 <= k < first_at(s, c) implies #[trigger] s[k] != c by {
            if k > 0 {
                assert(t[k - 1] == s[k]);
            }
        }
        if first_at(s, c) < s.len() {
            assert(t[first_at(t, c)] == s[first_at(s, c)]);
        }
    }
}

proof fn lemma_first_is(s: Seq<char>, c: char, i: int)
    requires
        0 <= i <= s.len(),
        forall|k: int| 0 <= k < i ==> #[trigger] s[k] != c,
        i < s.len() ==> s[i] == c,
    ensures
        first_at(s, c) == i,
{
    lemma_first_at(s, c);
    let j = first_at(s, c);
    if j < i {
        assert(s[j] != c);
    } else if i < j {
        assert(s[i] != c);
    }
}

/// The characters of a text.
fn chars_of(s: &str) -> (r: Vec<char>)
    ensures
        r@ == s@,
{
    let n: usize = s.unicode_len();
    let mut r: Vec<char> = Vec::new();
    let mut i: usize = 0;
    while i < n
        invariant
            n == s@.len(),
            i <= n,
            r@ == s@.take(i as int),
        decreases n - i,
    {
        r.push(s.get_char(i));
        assert(s@.take(i + 1) =~= s@.take(i as int).push(s@[i as int]));
        i = i + 1;
    }
    assert(s@.take(n as int) =~= s@);
    r
}

/// The place of a character's first occurrence between two places, or the second of them.
fn find_char(s: &Vec<char>, from: usize, to: usize, c: char) -> (r: usize)
    requires
        from <= to <= s@.len(),
    ensures
        from <= r <= to,
        r - from == first_at(s@.subrange(from as int, to as int), c),
{
    let mut i: usize = from;
    let ghost t = s@.subrange(from as int, to as int);
    while i < to
        invariant
            from <= i <= to <= s@.len(),
            t == s@.subrange(from as int, to as int),
            forall|k: int| 0 <= k < i - from ==> #[trigger] t[k] != c,
        decreases to - i,
    {
        if s[i] == c {
            proof {
                lemma_first_is(t, c, i - from);
            }
            return i;
        }
        i = i + 1;
    }
    proof {
        lemma_first_is(t, c, i - from);
    }
    i
}

proof fn lemma_value_nonneg(s: Seq<char>)
    requires
        all_digits(s),
    ensures
        0 <= value_of(s),
    decreases s.len(),
{
    if s.len() > 0 {
        assert(all_digits(s.drop_last())) by {
            assert forall|i: int| 0 <= i < s.drop_last().len() implies digit_value(
                #[trigger] s.drop_last()[i],
            ) is Some by {
                assert(s.drop_last()[i] == s[i]);
            }
        }
        lemma_value_nonneg(s.drop_last());
        assert(s.last() == s[s.len() - 1]);
    }
}

/// Reads the digits between two places; none if there is something else, or if the
/// number is above `hi`.
fn read_digits(s: &Vec<char>, from: usize, to: usize, hi: u128) -> (r: Option<u128>)
    requires
        from <= to <= s@.len(),
        hi <= u64::MAX,
    ensures
        ({
            let d = s@.subrange(from as int, to as int);
            match r {
                Some(n) => d.len() > 0 && all_digits(d) && value_of(d) == n && n <= hi,
                None => d.len() == 0 || !all_digits(d) || value_of(d) > hi,
            }
        }),
{
    let ghost d = s@.subrange(from as int, to as int);
    if from == to {
        return None;
    }
    let mut n: u128 = 0;
    let mut over: bool = false;
    let mut i: usize = from;
    assert(d.take(0) =~= Seq::<char>::empty());
    while i < to
        invariant
            from <= i <= to <= s@.len(),
            hi <= u64::MAX,
            d == s@.subrange(from as int, to as int),
            all_digits(d.take(i - from)),
            over == (value_of(d.take(i - from)) > hi),
            !over ==> n == value_of(d.take(i - from)),
            0 <= value_of(d.take(i - from)),
        decreases to - i,
    {
        let ghost a = d.take(i - from);
        let ghost b = d.take(i - from + 1);
        proof {
            assert(b.drop_last() =~= a);
            assert(b.last() == s@[i as int]);
        }
        match digit_of_char(s[i]) {
            Some(x) => {
                proof {
                    assert(all_digits(b)) by {
                        assert forall|k: int| 0 <= k < b.len() implies digit_value(
                            #[trigger] b[k],
                        ) is Some by {
                            if k < a.len() {
                                assert(a[k] == b[k]);
                            }
                        }
                    }
                }
                if !over {
                    n = n * 10 + x as u128;
                    if n > hi {
                        over = true;
                    }
                }
            },
            None => {
                proof {
                    assert(d[i - from] == s@[i as int]);
                    assert(!all_digits(d));
                }
                return None;
            },
        }
        i = i + 1;
    }
    assert(d.take(to - from) =~= d);
    if over {
        None
    } else {
        Some(n)
    }
}

/// Reads a whole number between two places.
fn read_number(s: &Vec<char>, from: usize, to: usize, negative: bool, hi: u128) -> (r: Option<i128>)
    requires
        from <= to <= s@.len(),
        hi < u64::MAX || (hi == u64::MAX && !negative),
    ensures
        ({
            let lo = if negative {
                -(hi as int) - 1
            } else {
                0int
            };
            let want = bounded(number_in(s@.subrange(from as int, to as int), negative), lo, hi as int);
            match r {
                Some(n) => want == Some(n as int),
                None => want is None,
            }
        }),
{
    let ghost t = s@.subrange(from as int, to as int);
    if from < to {
        let c: char = s[from];
        assert(t[0] == c);
        assert(t.skip(1) =~= s@.subrange(from + 1, to as int));
        if negative && c == '-' {
            return match read_digits(s, from + 1, to, hi + 1) {
                Some(n) => Some(-(n as i128)),
                None => None,
            };
        }
        if c == '+' {
            proof {
                if all_digits(t.skip(1)) {
                    lemma_value_nonneg(t.skip(1));
                }
            }
            return match read_digits(s, from + 1, to, hi) {
                Some(n) => Some(n as i128),
                None => None,
            };
        }
    }
    proof {
        if all_digits(t) {
            lemma_value_nonneg(t);
        }
    }
    match read_digits(s, from, to, hi) {
        Some(n) => Some(n as i128),
        None => None,
    }
}

/// A screen geometry `WxH+X+Y`: the size, at least 640 by 480, and the place.
pub open spec fn geometry(s: Seq<char>) -> Option<(int, int, int, int)> {
    match split_once(s, '+') {
        None => None,
        Some((wh, xy)) => match (split_once(wh, 'x'), split_once(xy, '+')) {
            (Some((w, h)), Some((x, y))) => match (
                bounded(number_in(w, false), 0, usize::MAX as int),
                bounded(number_in(h, false), 0, usize::MAX as int),
                bounded(number_in(x, true), i32::MIN as int, i32::MAX as int),
                bounded(number_in(y, true), i32::MIN as int, i32::MAX as int),
            ) {
                (Some(w), Some(h), Some(x), Some(y)) => if w >= 640 && h >= 480 {
                    Some((w, h, x, y))
                } else {
                    None
                },
                _ => None,
            },
            _ => None,
        },
    }
}

/// Reads a screen geometry `WxH+X+Y`.
pub fn parse_geom(tok: &str) -> (r: Option<(usize, usize, i32, i32)>)
    ensures
        match r {
            Some((w, h, x, y)) => geometry(tok@) == Some((w as int, h as int, x as int, y as int)),
            None => geometry(tok@) is None,
        },
{
    let s: Vec<char> = chars_of(tok);
    let n: usize = s.len();
    assert(s@.subrange(0, n as int) =~= s@);
    let p: usize = find_char(&s, 0, n, '+');
    if p >= n {
        return None;
    }
    let ghost (wh, xy) = (s@.take(p as int), s@.skip(p + 1));
    assert(wh =~= s@.subrange(0, p as int));
    assert(xy =~= s@.subrange(p + 1, n as int));
    let x: usize = find_char(&s, 0, p, 'x');
    if x >= p {
        return None;
    }
    let q: usize = find_char(&s, p + 1, n, '+');
    if q >= n {
        return None;
    }
    assert(wh.take(x as int) =~= s@.subrange(0, x as int));
    assert(wh.skip(x + 1) =~= s@.subrange(x + 1, p as int));
    assert(xy.take(q - p - 1) =~= s@.subrange(p + 1, q as int));
    assert(xy.skip(q - p) =~= s@.subrange(q + 1, n as int));
    let top: u128 = usize::MAX as u128;
    let a = read_number(&s, 0, x, false, top);
    let b = read_number(&s, x + 1, p, false, top);
    let c = read_number(&s, p + 1, q, true, 0x7FFF_FFFF);
    let d = read_number(&s, q + 1, n, true, 0x7FFF_FFFF);
    match (a, b, c, d) {
        (Some(w), Some(h), Some(x), Some(y)) => if w >= 640 && h >= 480 {
            Some((w as usize, h as usize, x as i32, y as i32))
        } else {
            None
        },
        _ => None,
    }
}

/// A whole number as it is written, with a sign if it is negative.
pub open spec fn signed_decimal(n: int) -> Seq<char> {
    if n < 0 {
        seq!['-'] + decimal((-n) as nat)
    } else {
        decimal(n as nat)
    }
}

/// A written geometry is read back, wherever the screen is.
pub proof fn geometry_roundtrip(w: nat, h: nat, x: int, y: int)
    requires
        640 <= w <= usize::MAX,
        480 <= h <= usize::MAX,
        i32::MIN <= x <= i32::MAX,
        i32::MIN <= y <= i32::MAX,
    ensures
        geometry(
            decimal(w) + seq!['x'] + decimal(h) + seq!['+'] + signed_decimal(x) + seq!['+'] + signed_decimal(y),
        ) == Some((w as int, h as int, x, y)),
{
    decimal_roundtrip(w);
    decimal_roundtrip(h);
    let (dx, dy) = (signed_decimal(x), signed_decimal(y));
    let wh = decimal(w) + seq!['x'] + decimal(h);
    let xy = dx + seq!['+'] + dy;
    let s = decimal(w) + seq!['x'] + decimal(h) + seq!['+'] + dx + seq!['+'] + dy;
    assert(s =~= wh + seq!['+'] + xy);
    lemma_signed(x);
    lemma_signed(y);
    lemma_split(decimal(w), decimal(h), 'x');
    lemma_split(dx, dy, '+');
    assert forall|k: int| 0 <= k < wh.len() implies #[trigger] wh[k] != '+' by {
        if k < decimal(w).len() {
            assert(wh[k] == decimal(w)[k]);
        } else if k > decimal(w).len() {
            assert(wh[k] == decimal(h)[k - decimal(w).len() - 1]);
        }
    }
    lemma_first_is(s, '+', wh.len() as int);
    assert(s.take(wh.len() as int) =~= wh);
    assert(s.skip(wh.len() as int + 1) =~= xy);
    lemma_plain(decimal(w));
    lemma_plain(decimal(h));
}

proof fn lemma_signed(n: int)
    ensures
        number_in(signed_decimal(n), true) == Some(n),
        forall|k: int| 0 <= k < signed_decimal(n).len() ==> #[trigger] signed_decimal(n)[k] != '+',
{
    if n < 0 {
        let d = decimal((-n) as nat);
        decimal_roundtrip((-n) as nat);
        assert(signed_decimal(n).skip(1) =~= d);
        assert forall|k: int| 0 <= k < signed_decimal(n).len() implies #[trigger] signed_decimal(n)[k] != '+' by {
            if k > 0 {
                assert(signed_decimal(n)[k] == d[k - 1]);
            }
        }
    } else {
        decimal_roundtrip(n as nat);
        lemma_plain(decimal(n as nat));
    }
}

proof fn lemma_plain(d: Seq<char>)
    requires
        d.len() > 0,
        all_digits(d),
    ensures
        number_in(d, false) == Some(value_of(d)),
        number_in(d, true) == Some(value_of(d)),
{
    assert(digit_value(d[0]) is Some);
}

proof fn lemma_split(a: Seq<char>, b: Seq<char>, c: char)
    requires
        forall|k: int| 0 <= k < a.len() ==> #[trigger] a[k] != c,
    ensures
        split_once(a + seq![c] + b, c) == Some((a, b)),
{
    let s = a + seq![c] + b;
    assert forall|k: int| 0 <= k < a.len() implies #[trigger] s[k] != c by {
        assert(s[k] == a[k]);
    }
    lemma_first_is(s, c, a.len() as int);
    assert(s.take(a.len() as int) =~= a);
    assert(s.skip(a.len() as int + 1) =~= b);
}

/// The port that a game listens on if nothing else is said.
pub const MP_PORT: u16 = 7777;

/// An address with its port: the usual one if none is given.
pub open spec fn with_port(s: Seq<char>) -> Seq<char> {
    if s.contains(':') {
        s
    } else {
        s + seq![':'] + decimal(MP_PORT as nat)
    }
}

/// An address with its port.
pub fn normalize_addr(s: &str) -> (r: String)
    ensures
        r@ == with_port(s@),
{
    let n: usize = s.unicode_len();
    let mut i: usize = 0;
    while i < n
        invariant
            n == s@.len(),
            i <= n,
            forall|k: int| 0 <= k < i ==> #[trigger] s@[k] != ':',
        decreases n - i,
    {
        if s.get_char(i) == ':' {
            assert(s@[i as int] == ':');
            return s.to_string();
        }
        i = i + 1;
    }
    let mut r: String = s.to_string();
    proof {
        reveal_strlit(":");
        assert(":"@ =~= seq![':']);
    }
    r.append(":");
    push_decimal(&mut r, MP_PORT as u32);
    r
}

/// An address always comes out with a port, and one that has a port stays as it is.
pub proof fn addresses_have_ports(s: Seq<char>)
    ensures
        with_port(s).contains(':'),
        with_port(with_port(s)) == with_port(s),
{
    if !s.contains(':') {
        assert(with_port(s)[s.len() as int] == ':');
    }
}

} // verus!
