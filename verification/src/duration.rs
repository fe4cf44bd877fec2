use vstd::prelude::*;

use crate::decimal::{
    all_digits, decimal_repr, int_of, is_numeric_char, lemma_all_digits_parse,
    lemma_numeric_prefix_len_bounds, lemma_numeric_prefix_len_unique, lemma_parse_decimal_numeric,
    lemma_pow10_depth, lemma_pow10_positive, lemma_round_div_bounds, lemma_round_div_one,
    lemma_floor_repr, lemma_round_repr, numeric_prefix_len, parse_decimal, parse_number, pow10,
    round_div, seq_to_nat, split_numeric, Decimal, ParsedNumber, represents, FRAC_DEPTH,
};
use crate::error::{Error, InvalidUnit};

verus! {

/// The unit suffix of a duration scalar; an absent suffix means the
/// magnitude heuristic decides.
#[derive(Debug, Clone, Copy, PartialEq, Eq, Structural)]
pub enum DurationUnit {
    Unspecified,
    Milliseconds,
    Seconds,
}

/// A decoded duration, held at the canonical resolution of whole
/// milliseconds.
#[derive(Debug, Clone, Copy, PartialEq, Eq, Structural)]
pub struct CustomDuration {
    pub millis: u64,
}

impl CustomDuration {
    pub fn as_millis(&self) -> (r: u64)
        ensures
            r == self.millis,
    {
        self.millis
    }

    pub fn from_millis(millis: u64) -> (r: CustomDuration)
        ensures
            r.millis == millis,
    {
        CustomDuration { millis }
    }
}

impl Default for CustomDuration {
    /// The documented default time limit: one second.
    fn default() -> (r: CustomDuration)
        ensures
            r.millis == 1000,
    {
        CustomDuration { millis: 1000 }
    }
}

/// Which unit a duration suffix names: empty defers to the magnitude
/// heuristic, `ms` and `s` are explicit, anything else is unrecognized.
pub open spec fn dur_unit_of(s: Seq<char>) -> Option<DurationUnit> {
    if s.len() == 0 {
        Some(DurationUnit::Unspecified)
    } else if s == seq!['m', 's'] {
        Some(DurationUnit::Milliseconds)
    } else if s == seq!['s'] {
        Some(DurationUnit::Seconds)
    } else {
        None
    }
}

/// The magnitude heuristic for a unitless duration `m / 10^sc`: a value in
/// `[0.1, 10)` is seconds, one in `[100, 10000)` is milliseconds, anything
/// else is rejected. The result is rounded to whole milliseconds, halves
/// away from zero.
pub open spec fn spec_dur_heuristic(m: nat, sc: nat) -> Result<CustomDuration, Error> {
    let p = pow10(sc);
    let t = (m * 1000) / p;
    if 100 <= t && t < 10000 {
        Ok(CustomDuration { millis: round_div(m * 1000, p) as u64 })
    } else if 100000 <= t && t < 10000000 {
        Ok(CustomDuration { millis: round_div(m, p) as u64 })
    } else {
        Err(Error::InvalidScalarValue)
    }
}

/// Decoding a duration from an exact numeral `m / 10^sc` and a unit; a
/// result beyond the canonical width is a narrowing error.
pub open spec fn spec_dur_from_parts(m: nat, sc: nat, unit: DurationUnit) -> Result<
    CustomDuration,
    Error,
> {
    let p = pow10(sc);
    match unit {
        DurationUnit::Unspecified => spec_dur_heuristic(m, sc),
        DurationUnit::Seconds => {
            let r = round_div(m * 1000, p);
            if r > u64::MAX as nat {
                Err(Error::NarrowingOverflow)
            } else {
                Ok(CustomDuration { millis: r as u64 })
            }
        },
        DurationUnit::Milliseconds => {
            let r = round_div(m, p);
            if r > u64::MAX as nat {
                Err(Error::NarrowingOverflow)
            } else {
                Ok(CustomDuration { millis: r as u64 })
            }
        },
    }
}

/// Decoding a bare integer duration: the magnitude heuristic on a whole
/// number.
pub open spec fn spec_dur_decode_u64(v: u64) -> Result<CustomDuration, Error> {
    if 1 <= v && v <= 9 {
        Ok(CustomDuration { millis: (v * 1000) as u64 })
    } else if 100 <= v && v <= 9999 {
        Ok(CustomDuration { millis: v })
    } else {
        Err(Error::InvalidScalarValue)
    }
}

/// Decoding a duration string: split the leading numeric run from the unit
/// suffix, parse the run as an exact numeral, then dispatch on the unit.
/// A malformed run is reported first and a bad unit next; only then does
/// the numeral's magnitude matter.
pub open spec fn spec_dur_decode_str(s: Seq<char>) -> Result<CustomDuration, Error> {
    let n = numeric_prefix_len(s);
    let prefix = s.subrange(0, n);
    let suffix = s.subrange(n, s.len() as int);
    match parse_decimal(prefix) {
        Option::None => Err(Error::MalformedNumericPrefix),
        Option::Some((m, sc)) => match dur_unit_of(suffix) {
            None => Err(Error::UnrecognizedUnit),
            Some(u) => spec_dur_from_parts(m, sc, u),
        },
    }
}

impl DurationUnit {
    /// Parses a duration unit suffix; an unrecognized one is returned
    /// verbatim inside the error.
    pub fn parse(s: &str) -> (r: Result<DurationUnit, InvalidUnit>)
        ensures
            dur_unit_of(s@) matches Some(u) ==> (r matches Ok(v) && v == u),
            dur_unit_of(s@) is None ==> (r matches Err(iu) && iu.0@ == s@),
    {
        let len: usize = s.unicode_len();
        if len == 0 {
            Ok(DurationUnit::Unspecified)
        } else if len == 2 && s.get_char(0) == 'm' && s.get_char(1) == 's' {
            proof {
                assert(s@ =~= seq!['m', 's']);
            }
            Ok(DurationUnit::Milliseconds)
        } else if len == 1 && s.get_char(0) == 's' {
            proof {
                assert(s@ =~= seq!['s']);
            }
            Ok(DurationUnit::Seconds)
        } else {
            proof {
                if s@ == seq!['m', 's'] {
                    assert(s@.len() == 2 && s@[0] == 'm' && s@[1] == 's');
                }
                if s@ == seq!['s'] {
                    assert(s@.len() == 1 && s@[0] == 's');
                }
            }
            Err(InvalidUnit(String::from_str(s)))
        }
    }
}

/// A numeral whose integer part is already beyond the canonical width is
/// out of every band, and its conversion under any explicit unit overflows.
proof fn lemma_dur_int_overflow(m: nat, sc: nat, unit: DurationUnit)
    requires
        int_of(m, sc) > u64::MAX as nat,
    ensures
        spec_dur_from_parts(m, sc, unit) == (match unit {
            DurationUnit::Unspecified => Err::<CustomDuration, Error>(Error::InvalidScalarValue),
            DurationUnit::Seconds => Err::<CustomDuration, Error>(Error::NarrowingOverflow),
            DurationUnit::Milliseconds => Err::<CustomDuration, Error>(Error::NarrowingOverflow),
        }),
{
    let p = pow10(sc);
    lemma_pow10_positive(sc);
    let i = int_of(m, sc);
    vstd::arithmetic::div_mod::lemma_fundamental_div_mod(m as int, p as int);
    vstd::arithmetic::div_mod::lemma_mod_division_less_than_divisor(m as int, p as int);
    assert(m * 1000 >= (i * 1000) * p) by (nonlinear_arith)
        requires
            m as int == p as int * i + (m as int % p as int),
            m as int % p as int >= 0,
    ;
    assert(((i * 1000) * p) as int == p as int * (i * 1000)) by (nonlinear_arith);
    vstd::arithmetic::div_mod::lemma_div_multiples_vanish((i * 1000) as int, p as int);
    vstd::arithmetic::div_mod::lemma_div_is_ordered(
        ((i * 1000) * p) as int,
        (m * 1000) as int,
        p as int,
    );
    assert((m * 1000) / p >= i * 1000);
    lemma_round_div_bounds(m * 1000, p);
    lemma_round_div_bounds(m, p);
}

/// Converts a represented numeral with its unit to whole milliseconds.
pub(crate) fn dur_convert(
    pn: ParsedNumber,
    unit: DurationUnit,
    Ghost(m): Ghost<nat>,
    Ghost(sc): Ghost<nat>,
) -> (r: Result<CustomDuration, Error>)
    requires
        represents(pn, m, sc),
    ensures
        r == spec_dur_from_parts(m, sc, unit),
{
    proof {
        lemma_pow10_depth();
        lemma_pow10_positive(sc);
    }
    let t: u128 = 1_000_000_000_000_000_000_000;
    let iw: u128 = pn.int_part as u128;
    let fw: u128 = pn.frac;
    match unit {
        DurationUnit::Milliseconds => {
            proof {
                lemma_round_repr(m, sc, 1);
            }
            let rf: u128 = (2 * fw + t) / (2 * t);
            let r: u128 = iw + rf;
            if r > u64::MAX as u128 {
                Err(Error::NarrowingOverflow)
            } else {
                Ok(CustomDuration { millis: r as u64 })
            }
        },
        DurationUnit::Seconds => {
            proof {
                lemma_round_repr(m, sc, 1000);
            }
            let rf: u128 = (2000 * fw + t) / (2 * t);
            let r: u128 = iw * 1000 + rf;
            if r > u64::MAX as u128 {
                Err(Error::NarrowingOverflow)
            } else {
                Ok(CustomDuration { millis: r as u64 })
            }
        },
        DurationUnit::Unspecified => {
            proof {
                lemma_floor_repr(m, sc, 1000);
            }
            let tf: u128 = (1000 * fw) / t;
            let tt: u128 = iw * 1000 + tf;
            if 100 <= tt && tt < 10000 {
                proof {
                    lemma_round_repr(m, sc, 1000);
                    lemma_round_div_bounds(m * 1000, pow10(sc));
                }
                let rf: u128 = (2000 * fw + t) / (2 * t);
                let r: u128 = iw * 1000 + rf;
                Ok(CustomDuration { millis: r as u64 })
            } else if 100000 <= tt && tt < 10000000 {
                proof {
                    lemma_round_repr(m, sc, 1);
                    lemma_round_div_bounds(m, pow10(sc));
                }
                let rf: u128 = (2 * fw + t) / (2 * t);
                let r: u128 = iw + rf;
                Ok(CustomDuration { millis: r as u64 })
            } else {
                Err(Error::InvalidScalarValue)
            }
        },
    }
}

/// The decoder for duration scalars, one entry per input shape a legacy
/// document may use: integer, exact decimal, or string.
pub struct DurationVisitor;

impl DurationVisitor {
    /// Decodes a bare unsigned integer through the magnitude heuristic.
    pub fn visit_u64(&self, v: u64) -> (r: Result<CustomDuration, Error>)
        ensures
            r == spec_dur_decode_u64(v),
    {
        if 1 <= v && v <= 9 {
            Ok(CustomDuration { millis: v * 1000 })
        } else if 100 <= v && v <= 9999 {
            Ok(CustomDuration { millis: v })
        } else {
            Err(Error::InvalidScalarValue)
        }
    }

    /// Decodes a bare fractional number through the magnitude heuristic.
    pub fn visit_decimal(&self, d: Decimal) -> (r: Result<CustomDuration, Error>)
        requires
            d.wf(),
        ensures
            r == spec_dur_from_parts(d.mantissa as nat, d.scale as nat, DurationUnit::Unspecified),
    {
        let pn = decimal_repr(d);
        dur_convert(pn, DurationUnit::Unspecified, Ghost(d.mantissa as nat), Ghost(d.scale as nat))
    }

    /// Decodes a duration string: numeric run, then unit suffix.
    pub fn visit_str(&self, s: &str) -> (r: Result<CustomDuration, Error>)
        ensures
            r == spec_dur_decode_str(s@),
    {
        let len: usize = s.unicode_len();
        let n: usize = split_numeric(s);
        proof {
            lemma_numeric_prefix_len_bounds(s@);
        }
        let prefix: &str = s.substring_char(0, n);
        let suffix: &str = s.substring_char(n, len);
        let parsed = parse_number(prefix);
        let unit = DurationUnit::parse(suffix);
        match parsed {
            Err(e) => {
                if matches!(e, Error::MalformedNumericPrefix) {
                    Err(Error::MalformedNumericPrefix)
                } else {
                    match unit {
                        Err(_) => Err(Error::UnrecognizedUnit),
                        Ok(u) => {
                            proof {
                                let (m, sc) = parse_decimal(prefix@).unwrap();
                                lemma_dur_int_overflow(m, sc, u);
                            }
                            match u {
                                DurationUnit::Unspecified => Err(Error::InvalidScalarValue),
                                DurationUnit::Seconds => Err(Error::NarrowingOverflow),
                                DurationUnit::Milliseconds => Err(Error::NarrowingOverflow),
                            }
                        },
                    }
                }
            },
            Ok(pn) => match unit {
                Err(_) => Err(Error::UnrecognizedUnit),
                Ok(u) => {
                    let ghost m2: nat = parse_decimal(prefix@).unwrap().0;
                    let ghost sc2: nat = parse_decimal(prefix@).unwrap().1;
                    dur_convert(pn, u, Ghost(m2), Ghost(sc2))
                },
            },
        }
    }
}

/// An explicit `ms` suffix is taken at its word: for every digit run
/// naming a number of milliseconds in the accepted judging range, the
/// string decoder yields exactly that number.
pub proof fn law_duration_ms_string(ds: Seq<char>)
    requires
        ds.len() > 0,
        all_digits(ds),
        100 <= seq_to_nat(ds) <= 10000,
    ensures
        spec_dur_decode_str(ds + seq!['m', 's']) == Ok::<CustomDuration, Error>(
            CustomDuration { millis: seq_to_nat(ds) as u64 },
        ),
{
    let s = ds + seq!['m', 's'];
    let n = seq_to_nat(ds);
    assert(!is_numeric_char('m')) by {
        assert(!('0' <= 'm' && 'm' <= '9'));
    }
    lemma_numeric_prefix_len_unique(s, ds.len() as int);
    assert(s.subrange(0, ds.len() as int) =~= ds);
    assert(s.subrange(ds.len() as int, s.len() as int) =~= seq!['m', 's']);
    lemma_all_digits_parse(ds);
    assert(pow10(0) == 1);
    lemma_round_div_one(n);
}

/// An explicit `s` suffix converts exactly: for every numeral naming a
/// number of seconds in `[0.1, 10)`, whatever its resolution, the string
/// decoder yields that value times a thousand, rounded to whole
/// milliseconds, halves away from zero.
pub proof fn law_duration_seconds_string(s: Seq<char>, m: nat, sc: nat)
    requires
        parse_decimal(s) == Some((m, sc)),
        pow10(sc) <= 10 * m,
        m < 10 * pow10(sc),
    ensures
        spec_dur_decode_str(s + seq!['s']) == Ok::<CustomDuration, Error>(
            CustomDuration { millis: round_div(m * 1000, pow10(sc)) as u64 },
        ),
{
    let w = s + seq!['s'];
    let p = pow10(sc);
    lemma_pow10_positive(sc);
    assert(!is_numeric_char('s')) by {
        assert(!('0' <= 's' && 's' <= '9'));
    }
    lemma_parse_decimal_numeric(s);
    lemma_numeric_prefix_len_unique(w, s.len() as int);
    assert(w.subrange(0, s.len() as int) =~= s);
    assert(w.subrange(s.len() as int, w.len() as int) =~= seq!['s']);
    let r = round_div(m * 1000, p);
    assert(m * 1000 < 10000 * p) by (nonlinear_arith)
        requires
            m < 10 * p,
    ;
    vstd::arithmetic::div_mod::lemma_multiply_divide_lt((m * 1000) as int, p as int, 10000);
    lemma_round_div_bounds(m * 1000, p);
    assert(r <= 10000);
}

/// A bare digit string and the same number given as an integer scalar
/// agree: both resolve through the same magnitude heuristic.
pub proof fn law_duration_bare_string_matches_integer(ds: Seq<char>)
    requires
        ds.len() > 0,
        all_digits(ds),
        seq_to_nat(ds) <= u64::MAX as nat,
    ensures
        spec_dur_decode_str(ds) == spec_dur_decode_u64(seq_to_nat(ds) as u64),
{
    let n = seq_to_nat(ds);
    lemma_numeric_prefix_len_unique(ds, ds.len() as int);
    assert(ds.subrange(0, ds.len() as int) =~= ds);
    assert(ds.subrange(ds.len() as int, ds.len() as int) =~= Seq::<char>::empty());
    lemma_all_digits_parse(ds);
    assert(pow10(0) == 1);
    lemma_round_div_one(n * 1000);
    lemma_round_div_one(n);
}

/// A duration string whose numeric run is a well-formed numeral but whose
/// suffix is not in the closed unit set always fails with
/// `UnrecognizedUnit` — it is never silently defaulted.
pub proof fn law_duration_unrecognized_unit(s: Seq<char>)
    requires
        parse_decimal(s.subrange(0, numeric_prefix_len(s))) is Some,
        dur_unit_of(s.subrange(numeric_prefix_len(s), s.len() as int)) is None,
    ensures
        spec_dur_decode_str(s) == Err::<CustomDuration, Error>(Error::UnrecognizedUnit),
{
}

} // verus!
