use vstd::prelude::*;

use crate::decimal::{
    decimal_repr, int_of, lemma_cmp_repr, lemma_numeric_prefix_len_bounds, lemma_pow10_depth,
    lemma_pow10_positive, lemma_round_div_bounds, lemma_round_repr, numeric_prefix_len,
    parse_decimal, parse_number, pow10, round_div, split_numeric, Decimal, ParsedNumber,
    represents, FRAC_DEPTH,
};
use crate::error::{Error, InvalidUnit};

verus! {

/// KiB in one MiB.
pub const KIB_PER_MIB: u64 = 1024;

/// KiB in one GiB.
pub const KIB_PER_GIB: u64 = 1048576;

/// The unit suffix of a memory-size scalar; an absent suffix means the
/// magnitude heuristic decides.
#[derive(Debug, Clone, Copy, PartialEq, Eq, Structural)]
pub enum MemorySizeUnit {
    Unspecified,
    Kibibyte,
    Mebibyte,
    Gibibyte,
}

/// A decoded memory size, held in the canonical unit of whole kibibytes.
#[derive(Debug, Clone, Copy, PartialEq, Eq, Structural)]
pub struct CustomSize {
    pub kib: u32,
}

impl CustomSize {
    pub fn as_kibibyte(self) -> (r: u32)
        ensures
            r == self.kib,
    {
        self.kib
    }

    pub fn from_kibibyte(kib: u32) -> (r: CustomSize)
        ensures
            r.kib == kib,
    {
        CustomSize { kib }
    }
}

impl Default for CustomSize {
    /// The documented default memory limit: 128 MiB.
    fn default() -> (r: CustomSize)
        ensures
            r.kib == 131072,
    {
        CustomSize { kib: 131072 }
    }
}

/// One character matched without regard to case.
pub open spec fn char_ci(c: char, lower: char, upper: char) -> bool {
    c == lower || c == upper
}

/// Which unit a memory suffix names, matched case-insensitively: empty
/// defers to the magnitude heuristic; `kib`/`kb`, `mib`/`mb`, `gib`/`gb`
/// are explicit; anything else is unrecognized.
pub open spec fn mem_unit_of(s: Seq<char>) -> Option<MemorySizeUnit> {
    if s.len() == 0 {
        Some(MemorySizeUnit::Unspecified)
    } else if s.len() == 2 && char_ci(s[0], 'k', 'K') && char_ci(s[1], 'b', 'B') {
        Some(MemorySizeUnit::Kibibyte)
    } else if s.len() == 3 && char_ci(s[0], 'k', 'K') && char_ci(s[1], 'i', 'I') && char_ci(
        s[2],
        'b',
        'B',
    ) {
        Some(MemorySizeUnit::Kibibyte)
    } else if s.len() == 2 && char_ci(s[0], 'm', 'M') && char_ci(s[1], 'b', 'B') {
        Some(MemorySizeUnit::Mebibyte)
    } else if s.len() == 3 && char_ci(s[0], 'm', 'M') && char_ci(s[1], 'i', 'I') && char_ci(
        s[2],
        'b',
        'B',
    ) {
        Some(MemorySizeUnit::Mebibyte)
    } else if s.len() == 2 && char_ci(s[0], 'g', 'G') && char_ci(s[1], 'b', 'B') {
        Some(MemorySizeUnit::Gibibyte)
    } else if s.len() == 3 && char_ci(s[0], 'g', 'G') && char_ci(s[1], 'i', 'I') && char_ci(
        s[2],
        'b',
        'B',
    ) {
        Some(MemorySizeUnit::Gibibyte)
    } else {
        None
    }
}

/// The magnitude heuristic for a unitless memory size `m / 10^sc`: a value
/// in `[1, 10]` is gibibytes, one in `[64, 10240]` is mebibytes, anything
/// else is rejected. The result is rounded to whole kibibytes, halves away
/// from zero; whole gibibyte and mebibyte counts convert exactly.
pub open spec fn spec_mem_heuristic(m: nat, sc: nat) -> Result<CustomSize, Error> {
    let p = pow10(sc);
    if p <= m && m <= 10 * p {
        Ok(CustomSize { kib: round_div(m * (KIB_PER_GIB as nat), p) as u32 })
    } else if 64 * p <= m && m <= 10240 * p {
        Ok(CustomSize { kib: round_div(m * (KIB_PER_MIB as nat), p) as u32 })
    } else {
        Err(Error::InvalidScalarValue)
    }
}

/// Decoding a memory size from an exact numeral `m / 10^sc` and a unit; a
/// result beyond the canonical width is a narrowing error.
pub open spec fn spec_mem_from_parts(m: nat, sc: nat, unit: MemorySizeUnit) -> Result<
    CustomSize,
    Error,
> {
    let p = pow10(sc);
    match unit {
        MemorySizeUnit::Unspecified => spec_mem_heuristic(m, sc),
        MemorySizeUnit::Kibibyte => {
            let r = round_div(m, p);
            if r > u32::MAX as nat {
                Err(Error::NarrowingOverflow)
            } else {
                Ok(CustomSize { kib: r as u32 })
            }
        },
        MemorySizeUnit::Mebibyte => {
            let r = round_div(m * (KIB_PER_MIB as nat), p);
            if r > u32::MAX as nat {
                Err(Error::NarrowingOverflow)
            } else {
                Ok(CustomSize { kib: r as u32 })
            }
        },
        MemorySizeUnit::Gibibyte => {
            let r = round_div(m * (KIB_PER_GIB as nat), p);
            if r > u32::MAX as nat {
                Err(Error::NarrowingOverflow)
            } else {
                Ok(CustomSize { kib: r as u32 })
            }
        },
    }
}

/// Decoding a bare integer memory size: the magnitude heuristic on a whole
/// number.
pub open spec fn spec_mem_decode_u64(v: u64) -> Result<CustomSize, Error> {
    if 1 <= v && v <= 10 {
        Ok(CustomSize { kib: (v * KIB_PER_GIB) as u32 })
    } else if 64 <= v && v <= 10240 {
        Ok(CustomSize { kib: (v * KIB_PER_MIB) as u32 })
    } else {
        Err(Error::InvalidScalarValue)
    }
}

/// Decoding a memory-size string: split the leading numeric run from the
/// unit suffix, parse the run as an exact numeral, then dispatch on the
/// unit. A malformed run is reported first and a bad unit next; only then
/// does the numeral's magnitude matter.
pub open spec fn spec_mem_decode_str(s: Seq<char>) -> Result<CustomSize, Error> {
    let n = numeric_prefix_len(s);
    let prefix = s.subrange(0, n);
    let suffix = s.subrange(n, s.len() as int);
    match parse_decimal(prefix) {
        Option::None => Err(Error::MalformedNumericPrefix),
        Option::Some((m, sc)) => match mem_unit_of(suffix) {
            None => Err(Error::UnrecognizedUnit),
            Some(u) => spec_mem_from_parts(m, sc, u),
        },
    }
}

impl MemorySizeUnit {
    /// Parses a memory unit suffix case-insensitively; an unrecognized one
    /// is returned verbatim inside the error.
    pub fn parse(s: &str) -> (r: Result<MemorySizeUnit, InvalidUnit>)
        ensures
            mem_unit_of(s@) matches Some(u) ==> (r matches Ok(v) && v == u),
            mem_unit_of(s@) is None ==> (r matches Err(iu) && iu.0@ == s@),
    {
        let len: usize = s.unicode_len();
        if len == 0 {
            return Ok(MemorySizeUnit::Unspecified);
        }
        if len == 2 || len == 3 {
            let c0 = s.get_char(0);
            let cl = s.get_char(len - 1);
            let mid_ok: bool = if len == 3 {
                let c1 = s.get_char(1);
                c1 == 'i' || c1 == 'I'
            } else {
                true
            };
            if mid_ok && (cl == 'b' || cl == 'B') {
                if c0 == 'k' || c0 == 'K' {
                    return Ok(MemorySizeUnit::Kibibyte);
                }
                if c0 == 'm' || c0 == 'M' {
                    return Ok(MemorySizeUnit::Mebibyte);
                }
                if c0 == 'g' || c0 == 'G' {
                    return Ok(MemorySizeUnit::Gibibyte);
                }
            }
        }
        Err(InvalidUnit(String::from_str(s)))
    }
}

/// A value inside the gibibyte band converts to at most 10 GiB of
/// kibibytes.
proof fn lemma_mem_gib_fits(m: nat, sc: nat)
    requires
        m <= 10 * pow10(sc),
    ensures
        round_div(m * (KIB_PER_GIB as nat), pow10(sc)) <= 10485761,
{
    let p = pow10(sc);
    lemma_pow10_positive(sc);
    assert(m * 1048576 <= 10485760 * p) by (nonlinear_arith)
        requires
            m <= 10 * p,
            p >= 1,
    ;
    vstd::arithmetic::div_mod::lemma_multiply_divide_le((m * 1048576) as int, p as int, 10485760);
    lemma_round_div_bounds(m * 1048576, p);
}

/// A value inside the mebibyte band converts to at most 10240 MiB of
/// kibibytes.
proof fn lemma_mem_mib_fits(m: nat, sc: nat)
    requires
        m <= 10240 * pow10(sc),
    ensures
        round_div(m * (KIB_PER_MIB as nat), pow10(sc)) <= 10485761,
{
    let p = pow10(sc);
    lemma_pow10_positive(sc);
    assert(m * 1024 <= 10485760 * p) by (nonlinear_arith)
        requires
            m <= 10240 * p,
            p >= 1,
    ;
    vstd::arithmetic::div_mod::lemma_multiply_divide_le((m * 1024) as int, p as int, 10485760);
    lemma_round_div_bounds(m * 1024, p);
}

/// A numeral whose integer part is already beyond the canonical width is
/// out of every band, and its conversion under any explicit unit overflows.
proof fn lemma_mem_int_overflow(m: nat, sc: nat, unit: MemorySizeUnit)
    requires
        int_of(m, sc) > u64::MAX as nat,
    ensures
        spec_mem_from_parts(m, sc, unit) == (match unit {
            MemorySizeUnit::Unspecified => Err::<CustomSize, Error>(Error::InvalidScalarValue),
            MemorySizeUnit::Kibibyte => Err::<CustomSize, Error>(Error::NarrowingOverflow),
            MemorySizeUnit::Mebibyte => Err::<CustomSize, Error>(Error::NarrowingOverflow),
            MemorySizeUnit::Gibibyte => Err::<CustomSize, Error>(Error::NarrowingOverflow),
        }),
{
    let p = pow10(sc);
    lemma_pow10_positive(sc);
    let i = int_of(m, sc);
    lemma_cmp_repr(m, sc, 10);
    lemma_cmp_repr(m, sc, 10240);
    vstd::arithmetic::div_mod::lemma_fundamental_div_mod(m as int, p as int);
    vstd::arithmetic::div_mod::lemma_mod_division_less_than_divisor(m as int, p as int);
    assert(m * 1024 >= (i * 1024) * p && m * 1048576 >= (i * 1048576) * p) by (nonlinear_arith)
        requires
            m as int == p as int * i + (m as int % p as int),
            m as int % p as int >= 0,
    ;
    assert(((i * 1024) * p) as int == p as int * (i * 1024)) by (nonlinear_arith);
    assert(((i * 1048576) * p) as int == p as int * (i * 1048576)) by (nonlinear_arith);
    vstd::arithmetic::div_mod::lemma_div_multiples_vanish((i * 1024) as int, p as int);
    vstd::arithmetic::div_mod::lemma_div_multiples_vanish((i * 1048576) as int, p as int);
    vstd::arithmetic::div_mod::lemma_div_is_ordered(
        ((i * 1024) * p) as int,
        (m * 1024) as int,
        p as int,
    );
    vstd::arithmetic::div_mod::lemma_div_is_ordered(
        ((i * 1048576) * p) as int,
        (m * 1048576) as int,
        p as int,
    );
    lemma_round_div_bounds(m, p);
    lemma_round_div_bounds(m * 1024, p);
    lemma_round_div_bounds(m * 1048576, p);
}

/// Converts a represented numeral with its unit to whole kibibytes.
pub(crate) fn mem_convert(
    pn: ParsedNumber,
    unit: MemorySizeUnit,
    Ghost(m): Ghost<nat>,
    Ghost(sc): Ghost<nat>,
) -> (r: Result<CustomSize, Error>)
    requires
        represents(pn, m, sc),
    ensures
        r == spec_mem_from_parts(m, sc, unit),
{
    proof {
        lemma_pow10_depth();
        lemma_pow10_positive(sc);
    }
    let t: u128 = 1_000_000_000_000_000_000_000;
    let iw: u128 = pn.int_part as u128;
    let fw: u128 = pn.frac;
    match unit {
        MemorySizeUnit::Kibibyte => {
            proof {
                lemma_round_repr(m, sc, 1);
            }
            let rf: u128 = (2 * fw + t) / (2 * t);
            let r: u128 = iw + rf;
            if r > u32::MAX as u128 {
                Err(Error::NarrowingOverflow)
            } else {
                Ok(CustomSize { kib: r as u32 })
            }
        },
        MemorySizeUnit::Mebibyte => {
            proof {
                lemma_round_repr(m, sc, 1024);
            }
            let rf: u128 = (2048 * fw + t) / (2 * t);
            let r: u128 = iw * 1024 + rf;
            if r > u32::MAX as u128 {
                Err(Error::NarrowingOverflow)
            } else {
                Ok(CustomSize { kib: r as u32 })
            }
        },
        MemorySizeUnit::Gibibyte => {
            proof {
                lemma_round_repr(m, sc, 1048576);
            }
            let rf: u128 = (2097152 * fw + t) / (2 * t);
            let r: u128 = iw * 1048576 + rf;
            if r > u32::MAX as u128 {
                Err(Error::NarrowingOverflow)
            } else {
                Ok(CustomSize { kib: r as u32 })
            }
        },
        MemorySizeUnit::Unspecified => {
            proof {
                lemma_cmp_repr(m, sc, 1);
                lemma_cmp_repr(m, sc, 10);
                lemma_cmp_repr(m, sc, 64);
                lemma_cmp_repr(m, sc, 10240);
            }
            let gib_lo: bool = iw >= 1;
            let gib_hi: bool = iw < 10 || (iw == 10 && fw == 0 && !pn.sticky);
            if gib_lo && gib_hi {
                proof {
                    lemma_round_repr(m, sc, 1048576);
                    lemma_mem_gib_fits(m, sc);
                }
                let rf: u128 = (2097152 * fw + t) / (2 * t);
                let r: u128 = iw * 1048576 + rf;
                Ok(CustomSize { kib: r as u32 })
            } else {
                let mib_lo: bool = iw >= 64;
                let mib_hi: bool = iw < 10240 || (iw == 10240 && fw == 0 && !pn.sticky);
                if mib_lo && mib_hi {
                    proof {
                        lemma_round_repr(m, sc, 1024);
                        lemma_mem_mib_fits(m, sc);
                    }
                    let rf: u128 = (2048 * fw + t) / (2 * t);
                    let r: u128 = iw * 1024 + rf;
                    Ok(CustomSize { kib: r as u32 })
                } else {
                    Err(Error::InvalidScalarValue)
                }
            }
        },
    }
}

/// Decodes a bare unsigned integer through the magnitude heuristic.
pub fn mem_decode_u64(v: u64) -> (r: Result<CustomSize, Error>)
    ensures
        r == spec_mem_decode_u64(v),
{
    if 1 <= v && v <= 10 {
        Ok(CustomSize { kib: (v * KIB_PER_GIB) as u32 })
    } else if 64 <= v && v <= 10240 {
        Ok(CustomSize { kib: (v * KIB_PER_MIB) as u32 })
    } else {
        Err(Error::InvalidScalarValue)
    }
}

/// Decodes a bare fractional number through the magnitude heuristic.
pub fn mem_decode_decimal(d: Decimal) -> (r: Result<CustomSize, Error>)
    requires
        d.wf(),
    ensures
        r == spec_mem_from_parts(d.mantissa as nat, d.scale as nat, MemorySizeUnit::Unspecified),
{
    let pn = decimal_repr(d);
    mem_convert(pn, MemorySizeUnit::Unspecified, Ghost(d.mantissa as nat), Ghost(d.scale as nat))
}

/// Decodes a memory-size string: numeric run, then unit suffix.
pub fn mem_decode_str(s: &str) -> (r: Result<CustomSize, Error>)
    ensures
        r == spec_mem_decode_str(s@),
{
    let len: usize = s.unicode_len();
    let n: usize = split_numeric(s);
    proof {
        lemma_numeric_prefix_len_bounds(s@);
    }
    let prefix: &str = s.substring_char(0, n);
    let suffix: &str = s.substring_char(n, len);
    let parsed = parse_number(prefix);
    let unit = MemorySizeUnit::parse(suffix);
    match parsed {
        Err(e) => {
            if matches!(e, Error::MalformedNumericPrefix) {
                Err(Error::MalformedNumericPrefix)
            } else {
                match unit {
                    Err(_) => Err(Error::UnrecognizedUnit),
                    Ok(u) => {
                        proof {
                            let (m, sc) = parse_decimal(prefix@).unwrap();
                            lemma_mem_int_overflow(m, sc, u);
                        }
                        match u {
                            MemorySizeUnit::Unspecified => Err(Error::InvalidScalarValue),
                            MemorySizeUnit::Kibibyte => Err(Error::NarrowingOverflow),
                            MemorySizeUnit::Mebibyte => Err(Error::NarrowingOverflow),
                            MemorySizeUnit::Gibibyte => Err(Error::NarrowingOverflow),
                        }
                    },
                }
            }
        },
        Ok(pn) => match unit {
            Err(_) => Err(Error::UnrecognizedUnit),
            Ok(u) => {
                let ghost m2: nat = parse_decimal(prefix@).unwrap().0;
                let ghost sc2: nat = parse_decimal(prefix@).unwrap().1;
                mem_convert(pn, u, Ghost(m2), Ghost(sc2))
            },
        },
    }
}

/// A memory-size string whose numeric run is a well-formed numeral but
/// whose suffix is not in the closed unit set always fails with
/// `UnrecognizedUnit` — it is never silently defaulted.
pub proof fn law_memory_unrecognized_unit(s: Seq<char>)
    requires
        parse_decimal(s.subrange(0, numeric_prefix_len(s))) is Some,
        mem_unit_of(s.subrange(numeric_prefix_len(s), s.len() as int)) is None,
    ensures
        spec_mem_decode_str(s) == Err::<CustomSize, Error>(Error::UnrecognizedUnit),
{
}

} // verus!
