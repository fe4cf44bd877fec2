use vstd::prelude::*;

use crate::error::Error;

verus! {

/// The largest scale a bare decimal scalar carries: plenty for a binary
/// float's decimal rendering, and small enough that the mantissa fits the
/// canonical width. String scalars are not bound by this — their numerals
/// are parsed to any depth.
pub const MAX_SCALE: u8 = 9;

/// An exact bare decimal quantity: `mantissa / 10^scale`.
///
/// This is how a fractional non-string scalar reaches the decoders, so
/// that magnitude-band checks and unit conversions are exact rather than
/// approximate.
#[derive(Debug, Clone, Copy, PartialEq, Eq, Structural)]
pub struct Decimal {
    pub mantissa: u64,
    pub scale: u8,
}

impl Decimal {
    pub open spec fn wf(self) -> bool {
        self.scale <= MAX_SCALE
    }

    pub fn new(mantissa: u64, scale: u8) -> (r: Decimal)
        requires
            scale <= MAX_SCALE,
        ensures
            r.mantissa == mantissa,
            r.scale == scale,
            r.wf(),
    {
        Decimal { mantissa, scale }
    }
}

pub open spec fn is_digit_char(c: char) -> bool {
    '0' <= c && c <= '9'
}

/// A character that may appear in the leading numeric run of a scalar string.
pub open spec fn is_numeric_char(c: char) -> bool {
    is_digit_char(c) || c == '.'
}

pub open spec fn digit_value(c: char) -> nat {
    ((c as u32) - 48) as nat
}

pub open spec fn all_digits(s: Seq<char>) -> bool {
    forall|i: int| 0 <= i < s.len() ==> is_digit_char(#[trigger] s[i])
}

/// The natural number written by a sequence of decimal digits.
pub open spec fn seq_to_nat(s: Seq<char>) -> nat
    decreases s.len(),
{
    if s.len() == 0 {
        0
    } else {
        seq_to_nat(s.drop_last()) * 10 + digit_value(s.last())
    }
}

/// Index of the first `'.'` in `s`, or `s.len()` if there is none.
pub open spec fn first_dot(s: Seq<char>) -> int
    decreases s.len(),
{
    if s.len() == 0 {
        0
    } else if s[0] == '.' {
        0
    } else {
        1 + first_dot(s.drop_first())
    }
}

/// Length of the maximal leading run of numeric characters in `s`.
pub open spec fn numeric_prefix_len(s: Seq<char>) -> int
    decreases s.len(),
{
    if s.len() == 0 {
        0
    } else if !is_numeric_char(s[0]) {
        0
    } else {
        1 + numeric_prefix_len(s.drop_first())
    }
}

/// The exact meaning of a numeric run as a decimal numeral: digits with at
/// most one point and at least one digit give `Some((mantissa, scale))`,
/// anything else gives `None`.
pub open spec fn parse_decimal(s: Seq<char>) -> Option<(nat, nat)> {
    let d = first_dot(s);
    if d == s.len() {
        if s.len() > 0 && all_digits(s) {
            Some((seq_to_nat(s), 0 as nat))
        } else {
            None
        }
    } else {
        let ip = s.subrange(0, d);
        let fp = s.subrange(d + 1, s.len() as int);
        if ip.len() + fp.len() > 0 && all_digits(ip) && all_digits(fp) {
            Some((seq_to_nat(ip + fp), fp.len()))
        } else {
            None
        }
    }
}

pub open spec fn pow10(e: nat) -> nat
    decreases e,
{
    if e == 0 {
        1
    } else {
        10 * pow10((e - 1) as nat)
    }
}

/// Division rounded to the nearest integer, halves away from zero.
pub open spec fn round_div(a: nat, b: nat) -> nat
    recommends
        b >= 1,
{
    ((a + b / 2) / b) as nat
}

pub proof fn lemma_numeric_prefix_len_bounds(s: Seq<char>)
    ensures
        0 <= numeric_prefix_len(s) <= s.len(),
        forall|j: int| 0 <= j < numeric_prefix_len(s) ==> is_numeric_char(#[trigger] s[j]),
        numeric_prefix_len(s) < s.len() ==> !is_numeric_char(s[numeric_prefix_len(s)]),
    decreases s.len(),
{
    if s.len() == 0 {
    } else if !is_numeric_char(s[0]) {
    } else {
        lemma_numeric_prefix_len_bounds(s.drop_first());
        assert forall|j: int| 0 <= j < numeric_prefix_len(s) implies is_numeric_char(
            #[trigger] s[j],
        ) by {
            if j > 0 {
                assert(s.drop_first()[j - 1] == s[j]);
            }
        }
    }
}

pub proof fn lemma_numeric_prefix_len_unique(s: Seq<char>, i: int)
    requires
        0 <= i <= s.len(),
        forall|j: int| 0 <= j < i ==> is_numeric_char(#[trigger] s[j]),
        i == s.len() || !is_numeric_char(s[i]),
    ensures
        i == numeric_prefix_len(s),
{
    lemma_numeric_prefix_len_bounds(s);
}

pub proof fn lemma_first_dot_bounds(s: Seq<char>)
    ensures
        0 <= first_dot(s) <= s.len(),
        first_dot(s) < s.len() ==> s[first_dot(s)] == '.',
        forall|j: int| 0 <= j < first_dot(s) ==> #[trigger] s[j] != '.',
    decreases s.len(),
{
    if s.len() == 0 {
    } else if s[0] == '.' {
    } else {
        lemma_first_dot_bounds(s.drop_first());
        assert forall|j: int| 0 <= j < first_dot(s) implies #[trigger] s[j] != '.' by {
            if j > 0 {
                assert(s.drop_first()[j - 1] == s[j]);
            }
        }
    }
}

pub proof fn lemma_first_dot_unique(s: Seq<char>, i: int)
    requires
        0 <= i <= s.len(),
        forall|j: int| 0 <= j < i ==> #[trigger] s[j] != '.',
        i == s.len() || s[i] == '.',
    ensures
        i == first_dot(s),
{
    lemma_first_dot_bounds(s);
}

/// A nonempty all-digit run is a plain integer numeral.
pub proof fn lemma_all_digits_parse(s: Seq<char>)
    requires
        s.len() > 0,
        all_digits(s),
    ensures
        first_dot(s) == s.len(),
        parse_decimal(s) == Some((seq_to_nat(s), 0 as nat)),
{
    lemma_first_dot_unique(s, s.len() as int);
}

pub proof fn lemma_pow10_values()
    ensures
        pow10(0) == 1,
        pow10(1) == 10,
        pow10(2) == 100,
        pow10(3) == 1000,
        pow10(4) == 10000,
        pow10(5) == 100000,
        pow10(6) == 1000000,
        pow10(7) == 10000000,
        pow10(8) == 100000000,
        pow10(9) == 1000000000,
{
    reveal_with_fuel(pow10, 11);
}

pub proof fn lemma_pow10_monotone(a: nat, b: nat)
    requires
        a <= b,
    ensures
        pow10(a) <= pow10(b),
    decreases b,
{
    if a < b {
        lemma_pow10_monotone(a, (b - 1) as nat);
        lemma_pow10_positive((b - 1) as nat);
    }
}

/// A numeral that parses consists of numeric characters only.
pub proof fn lemma_parse_decimal_numeric(s: Seq<char>)
    requires
        parse_decimal(s) is Some,
    ensures
        forall|j: int| 0 <= j < s.len() ==> is_numeric_char(#[trigger] s[j]),
{
    let d = first_dot(s);
    lemma_first_dot_bounds(s);
    if d == s.len() {
    } else {
        let ip = s.subrange(0, d);
        let fp = s.subrange(d + 1, s.len() as int);
        assert forall|j: int| 0 <= j < s.len() implies is_numeric_char(#[trigger] s[j]) by {
            if j < d {
                assert(ip[j] == s[j]);
            } else if j > d {
                assert(fp[j - d - 1] == s[j]);
            }
        }
    }
}

pub proof fn lemma_pow10_positive(e: nat)
    ensures
        pow10(e) >= 1,
    decreases e,
{
    if e > 0 {
        lemma_pow10_positive((e - 1) as nat);
    }
}

/// Rounded division stays between the floor quotient and its successor.
pub proof fn lemma_round_div_bounds(a: nat, b: nat)
    requires
        b >= 1,
    ensures
        a / b <= round_div(a, b) <= a / b + 1,
{
    vstd::arithmetic::div_mod::lemma_div_is_ordered(a as int, a as int + b / 2, b as int);
    vstd::arithmetic::div_mod::lemma_div_is_ordered(
        a as int + b / 2,
        a as int + b as int,
        b as int,
    );
    vstd::arithmetic::div_mod::lemma_div_plus_one(a as int, b as int);
}

/// Dividing by one, rounded or not, changes nothing.
pub proof fn lemma_round_div_one(a: nat)
    ensures
        round_div(a, 1) == a,
        a / 1 == a,
{
    vstd::arithmetic::div_mod::lemma_div_basics(a as int);
}

pub fn pow10_u64(e: u8) -> (r: u64)
    requires
        e <= MAX_SCALE,
    ensures
        r == pow10(e as nat),
        r >= 1,
{
    proof {
        lemma_pow10_values();
    }
    match e {
        0 => 1,
        1 => 10,
        2 => 100,
        3 => 1000,
        4 => 10000,
        5 => 100000,
        6 => 1000000,
        7 => 10000000,
        8 => 100000000,
        _ => 1000000000,
    }
}

pub(crate) fn is_digit(c: char) -> (r: bool)
    ensures
        r == is_digit_char(c),
{
    '0' <= c && c <= '9'
}

fn is_numeric(c: char) -> (r: bool)
    ensures
        r == is_numeric_char(c),
{
    ('0' <= c && c <= '9') || c == '.'
}

fn char_digit(c: char) -> (d: u32)
    requires
        is_digit_char(c),
    ensures
        d == digit_value(c),
        d <= 9,
{
    (c as u32) - 48
}

/// Length of the maximal leading numeric run of `s`, in characters.
pub fn split_numeric(s: &str) -> (r: usize)
    ensures
        r == numeric_prefix_len(s@),
{
    let len: usize = s.unicode_len();
    let mut i: usize = 0;
    while i < len && is_numeric(s.get_char(i))
        invariant
            0 <= i <= len,
            len == s@.len(),
            forall|j: int| 0 <= j < i ==> is_numeric_char(#[trigger] s@[j]),
        decreases len - i,
    {
        i = i + 1;
    }
    proof {
        lemma_numeric_prefix_len_unique(s@, i as int);
    }
    i
}

/// How many fractional digits the decoders track exactly. Beyond this
/// depth only a sticky flag — "some nonzero digit was seen" — is kept,
/// which the truncation lemmas below show is enough to round and compare
/// exactly for every conversion factor the decoders use: each factor `f`
/// satisfies `2·f | 10^21`, so a rounding boundary can never fall inside
/// the discarded tail.
pub const FRAC_DEPTH: usize = 21;

/// The integer part of the numeral `m / 10^sc`.
pub open spec fn int_of(m: nat, sc: nat) -> nat {
    m / pow10(sc)
}

/// The fractional numerator of the numeral `m / 10^sc`.
pub open spec fn frac_of(m: nat, sc: nat) -> nat {
    m % pow10(sc)
}

/// The first `FRAC_DEPTH` fractional digits, scaled to exactly that depth.
pub open spec fn frac_scaled(m: nat, sc: nat) -> nat {
    if sc <= FRAC_DEPTH as nat {
        frac_of(m, sc) * pow10((FRAC_DEPTH as nat - sc) as nat)
    } else {
        frac_of(m, sc) / pow10((sc - FRAC_DEPTH as nat) as nat)
    }
}

/// Whether any nonzero fractional digit lies beyond `FRAC_DEPTH`.
pub open spec fn frac_sticky(m: nat, sc: nat) -> bool {
    sc > FRAC_DEPTH as nat && frac_of(m, sc) % pow10((sc - FRAC_DEPTH as nat) as nat) != 0
}

/// A numeral held exactly enough to convert: its integer part, its first
/// `FRAC_DEPTH` fractional digits, and whether anything nonzero follows.
pub struct ParsedNumber {
    pub int_part: u64,
    pub frac: u128,
    pub sticky: bool,
}

/// `pn` faithfully represents the numeral `m / 10^sc`.
pub open spec fn represents(pn: ParsedNumber, m: nat, sc: nat) -> bool {
    &&& pn.int_part == int_of(m, sc)
    &&& pn.frac == frac_scaled(m, sc)
    &&& pn.sticky == frac_sticky(m, sc)
    &&& pn.frac < pow10(FRAC_DEPTH as nat)
}

pub proof fn lemma_pow10_adds(a: nat, b: nat)
    ensures
        pow10(a + b) == pow10(a) * pow10(b),
    decreases a,
{
    if a == 0 {
        assert(pow10(0) == 1);
        assert(pow10(0 + b) == 1 * pow10(b));
    } else {
        lemma_pow10_adds((a - 1) as nat, b);
        let u = pow10((a - 1) as nat);
        let w = pow10(b);
        assert(pow10((a - 1) as nat + b) == u * w);
        assert((a + b - 1) as nat == (a - 1) as nat + b);
        assert(pow10(a + b) == 10 * pow10((a + b - 1) as nat));
        assert(pow10(a) == 10 * u);
        assert(10 * (u * w) == (10 * u) * w) by (nonlinear_arith);
        assert(pow10(a + b) == pow10(a) * pow10(b));
    }
}

pub proof fn lemma_pow10_depth()
    ensures
        pow10(FRAC_DEPTH as nat) == 1000000000000000000000,
        pow10(FRAC_DEPTH as nat) % 2 == 0,
        pow10(FRAC_DEPTH as nat) % 1000 == 0,
        pow10(FRAC_DEPTH as nat) % 2000 == 0,
        pow10(FRAC_DEPTH as nat) % 2048 == 0,
        pow10(FRAC_DEPTH as nat) % 2097152 == 0,
{
    reveal_with_fuel(pow10, 23);
}

/// Scaling numerator and denominator by a common factor keeps a quotient.
proof fn lemma_div_cancel_factor(a: nat, b: nat, q: nat)
    requires
        b >= 1,
        q >= 1,
    ensures
        (q * a) / (q * b) == a / b,
{
    vstd::arithmetic::div_mod::lemma_div_denominator((q * a) as int, q as int, b as int);
    vstd::arithmetic::div_mod::lemma_div_multiples_vanish(a as int, q as int);
}

/// A remainder of two multiples of `g` is itself a multiple of `g`.
proof fn lemma_mod_of_multiples(a: nat, t: nat, g: nat)
    requires
        g >= 1,
        t >= 1,
        a % g == 0,
        t % g == 0,
    ensures
        (a % t) % g == 0,
{
    let k = a as int / t as int;
    vstd::arithmetic::div_mod::lemma_fundamental_div_mod(a as int, t as int);
    vstd::arithmetic::div_mod::lemma_fundamental_div_mod(a as int, g as int);
    vstd::arithmetic::div_mod::lemma_fundamental_div_mod(t as int, g as int);
    let ag = a as int / g as int;
    let tg = t as int / g as int;
    let w = ag - tg * k;
    assert(a as int % t as int == g * w) by (nonlinear_arith)
        requires
            a as int == g as int * ag,
            t as int == g as int * tg,
            a as int == t as int * k + a as int % t as int,
            w == ag - tg * k,
    ;
    vstd::arithmetic::div_mod::lemma_mod_multiples_basic(w, g as int);
    assert((g * w) % g as int == 0);
}

/// The discarded tail of a truncated numeral can never move a quotient
/// whose numerator and denominator are multiples of the tail's reach.
proof fn lemma_trunc_div(a: nat, g: nat, t: nat, q: nat, e: nat)
    requires
        g >= 1,
        t >= 1,
        q >= 1,
        t % g == 0,
        a % g == 0,
        e < g * q,
    ensures
        (q * a + e) / (q * t) == a / t,
{
    let at = a % t;
    let k = a / t;
    vstd::arithmetic::div_mod::lemma_fundamental_div_mod(a as int, t as int);
    vstd::arithmetic::div_mod::lemma_mod_division_less_than_divisor(a as int, t as int);
    lemma_mod_of_multiples(a, t, g);
    // at is a multiple of g strictly below t, so at <= t - g
    let j = at / g;
    vstd::arithmetic::div_mod::lemma_fundamental_div_mod(at as int, g as int);
    assert(at == g * j);
    assert(g * j < t);
    let tg = t / g;
    vstd::arithmetic::div_mod::lemma_fundamental_div_mod(t as int, g as int);
    assert(t == g * tg);
    assert(j < tg) by (nonlinear_arith)
        requires
            g * j < g * tg,
            g >= 1,
            j >= 0,
            tg >= 0,
    ;
    assert(at <= t - g) by (nonlinear_arith)
        requires
            at == g * j,
            t == g * tg,
            j <= tg - 1,
            g >= 1,
    ;
    // q*a + e decomposes as (q*t)*k + (q*at + e) with the remainder in range
    assert(q * at + e < q * t) by (nonlinear_arith)
        requires
            at <= t - g,
            e < g * q,
            q >= 1,
            g >= 1,
    ;
    assert(q * a + e == (k * (q * t)) + (q * at + e)) by (nonlinear_arith)
        requires
            a as int == t as int * k + at as int,
    ;
    vstd::arithmetic::div_mod::lemma_fundamental_div_mod_converse_div(
        (q * a + e) as int,
        (q * t) as int,
        k as int,
        (q * at + e) as int,
    );
}

/// Rounding the numeral times `f` to a whole number needs only the
/// truncated representation, provided `2·f` divides `10^FRAC_DEPTH`.
pub proof fn lemma_round_repr(m: nat, sc: nat, f: nat)
    requires
        f >= 1,
        pow10(FRAC_DEPTH as nat) % (2 * f) == 0,
    ensures
        round_div(m * f, pow10(sc)) == int_of(m, sc) * f + (2 * f * frac_scaled(m, sc) + pow10(
            FRAC_DEPTH as nat,
        )) / (2 * pow10(FRAC_DEPTH as nat)),
{
    let p = pow10(sc);
    let t = pow10(FRAC_DEPTH as nat);
    lemma_pow10_positive(sc);
    lemma_pow10_depth();
    let i = int_of(m, sc);
    let v = frac_of(m, sc);
    vstd::arithmetic::div_mod::lemma_fundamental_div_mod((m * f) as int, p as int);
    vstd::arithmetic::div_mod::lemma_fundamental_div_mod(m as int, p as int);
    vstd::arithmetic::div_mod::lemma_mod_division_less_than_divisor(m as int, p as int);
    let doubled = (2 * m * f + p) / (2 * p);
    assert(round_div(m * f, p) == doubled) by {
        if sc == 0 {
            lemma_round_div_one(m * f);
            assert(v == 0);
            assert(2 * m * f + 1 == (m * f) * 2 + 1) by (nonlinear_arith);
            vstd::arithmetic::div_mod::lemma_fundamental_div_mod_converse_div(
                (2 * m * f + 1) as int,
                2,
                (m * f) as int,
                1,
            );
        } else {
            let h = 5 * pow10((sc - 1) as nat);
            assert(p == 10 * pow10((sc - 1) as nat));
            assert(p == 2 * h) by (nonlinear_arith)
                requires
                    p == 10 * pow10((sc - 1) as nat),
                    h == 5 * pow10((sc - 1) as nat),
            ;
            vstd::arithmetic::div_mod::lemma_fundamental_div_mod_converse_div(
                p as int,
                2,
                h as int,
                0,
            );
            assert(p / 2 == h);
            lemma_div_cancel_factor(m * f + h, p, 2);
            assert(2 * (m * f + h) == 2 * m * f + p) by (nonlinear_arith)
                requires
                    p == 2 * h,
            ;
        }
    }
    let rest = (2 * f * v + p) / (2 * p);
    assert(doubled == i * f + rest) by {
        assert(2 * m * f + p == (2 * f * v + p) + (i * f) * (2 * p)) by (nonlinear_arith)
            requires
                m as int == p as int * i + v,
        ;
        vstd::arithmetic::div_mod::lemma_hoist_over_denominator(
            (2 * f * v + p) as int,
            (i * f) as int,
            (2 * p) as nat,
        );
    }
    let ff = frac_scaled(m, sc);
    assert(rest == (2 * f * ff + t) / (2 * t)) by {
        if sc <= FRAC_DEPTH as nat {
            let qq = pow10((FRAC_DEPTH as nat - sc) as nat);
            lemma_pow10_adds(sc, (FRAC_DEPTH as nat - sc) as nat);
            lemma_pow10_positive((FRAC_DEPTH as nat - sc) as nat);
            assert(t == p * qq);
            assert(ff == v * qq);
            assert(2 * f * ff + t == qq * (2 * f * v + p)) by (nonlinear_arith)
                requires
                    ff == v * qq,
                    t == p * qq,
            ;
            assert(2 * t == qq * (2 * p)) by (nonlinear_arith)
                requires
                    t == p * qq,
            ;
            lemma_div_cancel_factor(2 * f * v + p, 2 * p, qq);
        } else {
            let qq = pow10((sc - FRAC_DEPTH as nat) as nat);
            lemma_pow10_adds(FRAC_DEPTH as nat, (sc - FRAC_DEPTH as nat) as nat);
            lemma_pow10_positive((sc - FRAC_DEPTH as nat) as nat);
            assert(p == t * qq);
            let rem = v % qq;
            vstd::arithmetic::div_mod::lemma_fundamental_div_mod(v as int, qq as int);
            vstd::arithmetic::div_mod::lemma_mod_division_less_than_divisor(v as int, qq as int);
            assert(ff == v / qq);
            assert(2 * f * v + p == qq * (2 * f * ff + t) + 2 * f * rem) by (nonlinear_arith)
                requires
                    v as int == qq as int * ff + rem,
                    p == t * qq,
            ;
            assert(2 * p == qq * (2 * t)) by (nonlinear_arith)
                requires
                    p == t * qq,
            ;
            let a = 2 * f * ff + t;
            let g = 2 * f;
            assert(a % g == 0) by {
                let w = ff + t / g;
                vstd::arithmetic::div_mod::lemma_fundamental_div_mod(t as int, g as int);
                assert(a == g * w) by (nonlinear_arith)
                    requires
                        t as int == g as int * (t as int / g as int),
                        w == ff + t / g,
                        t % g == 0,
                        a == 2 * f * ff + t,
                        g == 2 * f,
                ;
                vstd::arithmetic::div_mod::lemma_mod_multiples_basic(w as int, g as int);
            }
            assert((2 * t) % g == 0) by {
                let w2 = 2 * (t / g);
                vstd::arithmetic::div_mod::lemma_fundamental_div_mod(t as int, g as int);
                assert(2 * t == g * w2) by (nonlinear_arith)
                    requires
                        t as int == g as int * (t as int / g as int),
                        w2 == 2 * (t / g),
                        t % g == 0,
                ;
                vstd::arithmetic::div_mod::lemma_mod_multiples_basic(w2 as int, g as int);
            }
            assert(2 * f * rem < g * qq) by (nonlinear_arith)
                requires
                    rem < qq,
                    g == 2 * f,
                    f >= 1,
            ;
            lemma_trunc_div(a, g, 2 * t, qq, 2 * f * rem);
        }
    }
}

/// Flooring the numeral times `f` needs only the truncated representation,
/// provided `f` divides `10^FRAC_DEPTH`.
pub proof fn lemma_floor_repr(m: nat, sc: nat, f: nat)
    requires
        f >= 1,
        pow10(FRAC_DEPTH as nat) % f == 0,
    ensures
        (m * f) / pow10(sc) == int_of(m, sc) * f + (f * frac_scaled(m, sc)) / pow10(
            FRAC_DEPTH as nat,
        ),
{
    let p = pow10(sc);
    let t = pow10(FRAC_DEPTH as nat);
    lemma_pow10_positive(sc);
    lemma_pow10_depth();
    let i = int_of(m, sc);
    let v = frac_of(m, sc);
    vstd::arithmetic::div_mod::lemma_fundamental_div_mod(m as int, p as int);
    vstd::arithmetic::div_mod::lemma_mod_division_less_than_divisor(m as int, p as int);
    assert((m * f) / p == i * f + (f * v) / p) by {
        assert(m * f == (f * v) + (i * f) * p) by (nonlinear_arith)
            requires
                m as int == p as int * i + v,
        ;
        vstd::arithmetic::div_mod::lemma_hoist_over_denominator(
            (f * v) as int,
            (i * f) as int,
            p as nat,
        );
    }
    let ff = frac_scaled(m, sc);
    assert((f * v) / p == (f * ff) / t) by {
        if sc <= FRAC_DEPTH as nat {
            let qq = pow10((FRAC_DEPTH as nat - sc) as nat);
            lemma_pow10_adds(sc, (FRAC_DEPTH as nat - sc) as nat);
            lemma_pow10_positive((FRAC_DEPTH as nat - sc) as nat);
            assert(f * ff == qq * (f * v) && t == qq * p) by (nonlinear_arith)
                requires
                    ff == v * qq,
                    t == p * qq,
            ;
            lemma_div_cancel_factor(f * v, p, qq);
        } else {
            let qq = pow10((sc - FRAC_DEPTH as nat) as nat);
            lemma_pow10_adds(FRAC_DEPTH as nat, (sc - FRAC_DEPTH as nat) as nat);
            lemma_pow10_positive((sc - FRAC_DEPTH as nat) as nat);
            let rem = v % qq;
            vstd::arithmetic::div_mod::lemma_fundamental_div_mod(v as int, qq as int);
            vstd::arithmetic::div_mod::lemma_mod_division_less_than_divisor(v as int, qq as int);
            assert(f * v == qq * (f * ff) + f * rem && p == qq * t) by (nonlinear_arith)
                requires
                    v as int == qq as int * ff + rem,
                    p == t * qq,
                    ff == v / qq,
            ;
            assert((f * ff) % f == 0) by {
                vstd::arithmetic::div_mod::lemma_mod_multiples_basic(ff as int, f as int);
                assert((ff * f) as int % f as int == 0);
                assert(f * ff == ff * f) by (nonlinear_arith);
            }
            assert(f * rem < f * qq) by (nonlinear_arith)
                requires
                    rem < qq,
                    f >= 1,
            ;
            lemma_trunc_div(f * ff, f, t, qq, f * rem);
        }
    }
}

/// Comparing the numeral against a whole bound needs only the truncated
/// representation.
pub proof fn lemma_cmp_repr(m: nat, sc: nat, c: nat)
    ensures
        (c * pow10(sc) <= m) <==> (c <= int_of(m, sc)),
        (m <= c * pow10(sc)) <==> (int_of(m, sc) < c || (int_of(m, sc) == c && frac_scaled(m, sc)
            == 0 && !frac_sticky(m, sc))),
{
    let p = pow10(sc);
    lemma_pow10_positive(sc);
    let i = int_of(m, sc);
    let v = frac_of(m, sc);
    vstd::arithmetic::div_mod::lemma_fundamental_div_mod(m as int, p as int);
    vstd::arithmetic::div_mod::lemma_mod_division_less_than_divisor(m as int, p as int);
    assert((c * p <= m) <==> (c <= i)) by (nonlinear_arith)
        requires
            m as int == p as int * i + v,
            0 <= v < p,
            p >= 1,
    ;
    assert((m <= c * p) <==> (i < c || (i == c && v == 0))) by (nonlinear_arith)
        requires
            m as int == p as int * i + v,
            0 <= v < p,
            p >= 1,
    ;
    if sc <= FRAC_DEPTH as nat {
        let qq = pow10((FRAC_DEPTH as nat - sc) as nat);
        lemma_pow10_positive((FRAC_DEPTH as nat - sc) as nat);
        assert((v * qq == 0) <==> (v == 0)) by (nonlinear_arith)
            requires
                qq >= 1,
        ;
    } else {
        let qq = pow10((sc - FRAC_DEPTH as nat) as nat);
        lemma_pow10_positive((sc - FRAC_DEPTH as nat) as nat);
        vstd::arithmetic::div_mod::lemma_fundamental_div_mod(v as int, qq as int);
        vstd::arithmetic::div_mod::lemma_mod_division_less_than_divisor(v as int, qq as int);
        let vd = v as int / qq as int;
        let vm = v as int % qq as int;
        assert((vd == 0 && vm == 0) <==> (v == 0)) by (nonlinear_arith)
            requires
                v as int == qq as int * vd + vm,
                0 <= vm,
                vm < qq as int,
                qq >= 1,
                v >= 0,
        ;
    }
}

/// Relates the running mantissa of the parser to the digits consumed so
/// far: exact while it fits, and pinned above the cap once the numeral has
/// outgrown the canonical width.
pub open spec fn digits_invariant(ds: Seq<char>, m: nat) -> bool {
    if seq_to_nat(ds) <= u64::MAX as nat {
        m == seq_to_nat(ds)
    } else {
        m > u64::MAX as nat
    }
}

proof fn lemma_big_stays_big(v: nat, d: nat)
    requires
        v > u64::MAX as nat,
    ensures
        v * 10 + d > u64::MAX as nat,
{
    assert(v * 10 >= v) by (nonlinear_arith)
        requires
            v >= 0,
    ;
}

pub proof fn lemma_seq_to_nat_split(a: Seq<char>, b: Seq<char>)
    ensures
        seq_to_nat(a + b) == seq_to_nat(a) * pow10(b.len()) + seq_to_nat(b),
    decreases b.len(),
{
    if b.len() == 0 {
        assert(a + b =~= a);
        assert(pow10(0) == 1);
    } else {
        let b0 = b.drop_last();
        lemma_seq_to_nat_split(a, b0);
        assert((a + b).drop_last() =~= a + b0);
        assert((a + b).last() == b.last());
        let va = seq_to_nat(a);
        let v0 = seq_to_nat(b0);
        let d = digit_value(b.last());
        assert(seq_to_nat(a + b) == seq_to_nat(a + b0) * 10 + d);
        assert(seq_to_nat(b) == v0 * 10 + d);
        assert(pow10(b.len()) == 10 * pow10(b0.len()));
        assert((va * pow10(b0.len()) + v0) * 10 + d == va * (10 * pow10(b0.len())) + (v0 * 10
            + d)) by (nonlinear_arith);
    }
}

pub proof fn lemma_seq_to_nat_bound(s: Seq<char>)
    requires
        all_digits(s),
    ensures
        seq_to_nat(s) < pow10(s.len()),
    decreases s.len(),
{
    if s.len() == 0 {
    } else {
        let s0 = s.drop_last();
        assert(all_digits(s0)) by {
            assert(forall|i: int| 0 <= i < s0.len() ==> s0[i] == s[i]);
        }
        lemma_seq_to_nat_bound(s0);
        assert(is_digit_char(s.last()));
        assert(digit_value(s.last()) <= 9);
        assert(pow10(s.len()) == 10 * pow10(s0.len()));
        assert(seq_to_nat(s0) * 10 + digit_value(s.last()) < 10 * pow10(s0.len()))
            by (nonlinear_arith)
            requires
                seq_to_nat(s0) < pow10(s0.len()),
                digit_value(s.last()) <= 9,
        ;
    }
}

pub(crate) fn pow10_u128(e: usize) -> (r: u128)
    requires
        e <= FRAC_DEPTH,
    ensures
        r == pow10(e as nat),
{
    let mut r: u128 = 1;
    let mut i: usize = 0;
    while i < e
        invariant
            0 <= i <= e <= FRAC_DEPTH,
            r == pow10(i as nat),
        decreases e - i,
    {
        proof {
            lemma_pow10_monotone((i + 1) as nat, FRAC_DEPTH as nat);
            lemma_pow10_depth();
            assert(pow10((i + 1) as nat) == 10 * pow10(i as nat));
        }
        r = r * 10;
        i = i + 1;
    }
    r
}

/// The truncated representation of an exact bare decimal, which always
/// fits within the tracked depth.
pub(crate) fn decimal_repr(d: Decimal) -> (pn: ParsedNumber)
    requires
        d.wf(),
    ensures
        represents(pn, d.mantissa as nat, d.scale as nat),
{
    let p: u64 = pow10_u64(d.scale);
    let i: u64 = d.mantissa / p;
    let v: u64 = d.mantissa % p;
    let q: u128 = pow10_u128(FRAC_DEPTH - d.scale as usize);
    proof {
        lemma_pow10_adds(d.scale as nat, (FRAC_DEPTH as nat - d.scale as nat) as nat);
        lemma_pow10_depth();
        lemma_pow10_positive((FRAC_DEPTH as nat - d.scale as nat) as nat);
        assert((v as nat) * (q as nat) < pow10(FRAC_DEPTH as nat)) by (nonlinear_arith)
            requires
                (v as nat) < pow10(d.scale as nat),
                q == pow10((FRAC_DEPTH as nat - d.scale as nat) as nat),
                pow10(d.scale as nat) * pow10((FRAC_DEPTH as nat - d.scale as nat) as nat)
                    == pow10(FRAC_DEPTH as nat),
                q >= 1,
        ;
    }
    let frac: u128 = (v as u128) * q;
    ParsedNumber { int_part: i, frac, sticky: false }
}

/// Parses a numeric run into the truncated representation. A run that is
/// not a decimal numeral is malformed; an integer part beyond the
/// canonical width is reported as narrowing; fractional digits are kept
/// exactly to `FRAC_DEPTH` and summarized by the sticky flag beyond it.
pub(crate) fn parse_number(s: &str) -> (r: Result<ParsedNumber, Error>)
    requires
        forall|j: int| 0 <= j < s@.len() ==> is_numeric_char(#[trigger] s@[j]),
    ensures
        parse_decimal(s@) is None ==> r == Err::<ParsedNumber, Error>(
            Error::MalformedNumericPrefix,
        ),
        parse_decimal(s@) matches Some((m, sc)) ==> if int_of(m, sc) > u64::MAX as nat {
            r == Err::<ParsedNumber, Error>(Error::NarrowingOverflow)
        } else {
            (r matches Ok(pn) && represents(pn, m, sc))
        },
{
    let len: usize = s.unicode_len();
    let mut dot: Option<usize> = None;
    let mut i: usize = 0;
    while i < len
        invariant
            0 <= i <= len,
            len == s@.len(),
            forall|j: int| 0 <= j < s@.len() ==> is_numeric_char(#[trigger] s@[j]),
            match dot {
                Option::None => forall|j: int| 0 <= j < i ==> #[trigger] s@[j] != '.',
                Option::Some(p) => {
                    &&& 0 <= p < i
                    &&& s@[p as int] == '.'
                    &&& forall|j: int| 0 <= j < i && j != p ==> #[trigger] s@[j] != '.'
                },
            },
        decreases len - i,
    {
        let c = s.get_char(i);
        if c == '.' {
            match dot {
                None => {
                    dot = Some(i);
                },
                Some(p) => {
                    proof {
                        lemma_two_dots_malformed(s@, p as int, i as int);
                    }
                    return Err(Error::MalformedNumericPrefix);
                },
            }
        }
        i = i + 1;
    }
    let ipl: usize = match dot {
        Some(p) => p,
        None => len,
    };
    proof {
        match dot {
            Option::None => {
                lemma_first_dot_unique(s@, s@.len() as int);
            },
            Option::Some(p) => {
                lemma_first_dot_unique(s@, p as int);
            },
        }
    }
    if len == 0 {
        return Err(Error::MalformedNumericPrefix);
    }
    if matches!(dot, Some(_)) && len == 1 {
        proof {
            assert(s@.subrange(0, 0).len() + s@.subrange(1, 1).len() == 0);
        }
        return Err(Error::MalformedNumericPrefix);
    }
    let ghost ip: Seq<char> = s@.subrange(0, ipl as int);
    let ghost fp: Seq<char> = match dot {
        Option::Some(p) => s@.subrange(p as int + 1, len as int),
        Option::None => Seq::empty(),
    };
    proof {
        assert(forall|j: int| 0 <= j < ip.len() ==> ip[j] == s@[j]);
        assert(all_digits(ip));
        match dot {
            Option::None => {
                assert(ip =~= s@);
                lemma_all_digits_parse(s@);
                assert(ip + fp =~= s@);
            },
            Option::Some(p) => {
                assert(forall|j: int| 0 <= j < fp.len() ==> fp[j] == s@[j + p + 1]);
                assert(all_digits(fp));
                assert(parse_decimal(s@) == Some((seq_to_nat(ip + fp), fp.len())));
            },
        }
    }
    let ghost m: nat = parse_decimal(s@).unwrap().0;
    let ghost sc: nat = parse_decimal(s@).unwrap().1;
    proof {
        assert(m == seq_to_nat(ip + fp));
        assert(sc == fp.len());
        lemma_seq_to_nat_split(ip, fp);
        lemma_seq_to_nat_bound(fp);
        lemma_pow10_positive(sc);
        vstd::arithmetic::div_mod::lemma_fundamental_div_mod_converse_div(
            m as int,
            pow10(sc) as int,
            seq_to_nat(ip) as int,
            seq_to_nat(fp) as int,
        );
        vstd::arithmetic::div_mod::lemma_fundamental_div_mod_converse_mod(
            m as int,
            pow10(sc) as int,
            seq_to_nat(ip) as int,
            seq_to_nat(fp) as int,
        );
        assert(int_of(m, sc) == seq_to_nat(ip));
        assert(frac_of(m, sc) == seq_to_nat(fp));
    }
    let cap: u128 = u64::MAX as u128;
    let mut iv: u128 = 0;
    let mut j: usize = 0;
    while j < ipl
        invariant
            0 <= j <= ipl <= len,
            len == s@.len(),
            ip == s@.subrange(0, ipl as int),
            all_digits(ip),
            cap == u64::MAX as u128,
            iv <= cap * 10 + 9,
            digits_invariant(s@.subrange(0, j as int), iv as nat),
        decreases ipl - j,
    {
        let c = s.get_char(j);
        proof {
            assert(ip[j as int] == s@[j as int]);
        }
        let d = char_digit(c);
        let ghost prev = s@.subrange(0, j as int);
        let ghost next = prev.push(c);
        proof {
            assert(next.drop_last() =~= prev);
            assert(s@.subrange(0, j as int + 1) =~= next);
        }
        if iv <= cap {
            iv = iv * 10 + d as u128;
        } else {
            proof {
                lemma_big_stays_big(seq_to_nat(prev), digit_value(c));
            }
        }
        j = j + 1;
    }
    proof {
        assert(s@.subrange(0, ipl as int) =~= ip);
    }
    if iv > cap {
        return Err(Error::NarrowingOverflow);
    }
    let int_part: u64 = iv as u64;
    let mut fv: u128 = 0;
    let mut fcount: usize = 0;
    let mut sticky: bool = false;
    if let Some(p) = dot {
        let mut k: usize = p + 1;
        while k < len
            invariant
                p < len,
                p + 1 <= k <= len,
                len == s@.len(),
                fp == s@.subrange(p as int + 1, len as int),
                all_digits(fp),
                fcount == k - p - 1,
                if fcount <= FRAC_DEPTH {
                    &&& fv == seq_to_nat(fp.subrange(0, fcount as int))
                    &&& (fv as nat) < pow10(fcount as nat)
                    &&& !sticky
                } else {
                    &&& fv == seq_to_nat(fp.subrange(0, FRAC_DEPTH as int))
                    &&& (fv as nat) < pow10(FRAC_DEPTH as nat)
                    &&& sticky == (seq_to_nat(
                        fp.subrange(FRAC_DEPTH as int, fcount as int),
                    ) != 0)
                },
            decreases len - k,
        {
            let c = s.get_char(k);
            proof {
                assert(fp[k - p - 1] == s@[k as int]);
            }
            let d = char_digit(c);
            if fcount < FRAC_DEPTH {
                let ghost prev = fp.subrange(0, fcount as int);
                let ghost next = prev.push(c);
                proof {
                    assert(next.drop_last() =~= prev);
                    assert(fp.subrange(0, fcount as int + 1) =~= next);
                    assert(pow10((fcount + 1) as nat) == 10 * pow10(fcount as nat));
                    lemma_pow10_monotone((fcount + 1) as nat, FRAC_DEPTH as nat);
                    lemma_pow10_depth();
                }
                fv = fv * 10 + d as u128;
            } else {
                if d != 0 {
                    sticky = true;
                }
                let ghost prev = fp.subrange(FRAC_DEPTH as int, fcount as int);
                let ghost next = prev.push(c);
                proof {
                    assert(next.drop_last() =~= prev);
                    assert(fp.subrange(FRAC_DEPTH as int, fcount as int + 1) =~= next);
                    assert(seq_to_nat(next) == seq_to_nat(prev) * 10 + digit_value(c));
                }
            }
            fcount = fcount + 1;
            k = k + 1;
        }
        proof {
            assert(fp.subrange(0, fp.len() as int) =~= fp);
        }
    }
    let frac: u128 = if fcount <= FRAC_DEPTH {
        let q = pow10_u128(FRAC_DEPTH - fcount);
        proof {
            lemma_pow10_adds(fcount as nat, (FRAC_DEPTH - fcount) as nat);
            lemma_pow10_depth();
            lemma_pow10_positive((FRAC_DEPTH - fcount) as nat);
            assert((fv as nat) * pow10((FRAC_DEPTH - fcount) as nat) < pow10(FRAC_DEPTH as nat))
                by (nonlinear_arith)
                requires
                    (fv as nat) < pow10(fcount as nat),
                    pow10(fcount as nat) * pow10((FRAC_DEPTH - fcount) as nat) == pow10(
                        FRAC_DEPTH as nat,
                    ),
                    pow10((FRAC_DEPTH - fcount) as nat) >= 1,
            ;
        }
        fv * q
    } else {
        fv
    };
    proof {
        if sc <= FRAC_DEPTH as nat {
            assert(fp.subrange(0, sc as int) =~= fp);
        } else {
            let hd = fp.subrange(0, FRAC_DEPTH as int);
            let tl = fp.subrange(FRAC_DEPTH as int, sc as int);
            assert(hd + tl =~= fp);
            lemma_seq_to_nat_split(hd, tl);
            assert(all_digits(tl)) by {
                assert(forall|q2: int|
                    0 <= q2 < tl.len() ==> tl[q2] == fp[q2 + FRAC_DEPTH as int]);
            }
            lemma_seq_to_nat_bound(tl);
            lemma_pow10_positive((sc - FRAC_DEPTH as nat) as nat);
            vstd::arithmetic::div_mod::lemma_fundamental_div_mod_converse_div(
                seq_to_nat(fp) as int,
                pow10((sc - FRAC_DEPTH as nat) as nat) as int,
                seq_to_nat(hd) as int,
                seq_to_nat(tl) as int,
            );
            vstd::arithmetic::div_mod::lemma_fundamental_div_mod_converse_mod(
                seq_to_nat(fp) as int,
                pow10((sc - FRAC_DEPTH as nat) as nat) as int,
                seq_to_nat(hd) as int,
                seq_to_nat(tl) as int,
            );
        }
    }
    Ok(ParsedNumber { int_part, frac, sticky })
}

proof fn lemma_two_dots_malformed(s: Seq<char>, p: int, i: int)
    requires
        0 <= p < i < s.len(),
        s[p] == '.',
        s[i] == '.',
        forall|j: int| 0 <= j < p ==> #[trigger] s[j] != '.',
    ensures
        parse_decimal(s) is None,
{
    lemma_first_dot_unique(s, p);
    let fp = s.subrange(p + 1, s.len() as int);
    assert(fp[i - p - 1] == '.');
    assert(!is_digit_char('.'));
    assert(!all_digits(fp));
}

} // verus!
