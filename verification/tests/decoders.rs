use caseconv::decimal::Decimal;
use caseconv::duration::{CustomDuration, DurationVisitor};
use caseconv::error::Error;
use caseconv::memory_size::{mem_decode_decimal, mem_decode_str, mem_decode_u64, CustomSize};

fn ms(n: u64) -> CustomDuration {
    CustomDuration::from_millis(n)
}

fn kib(n: u32) -> CustomSize {
    CustomSize::from_kibibyte(n)
}

#[test]
fn deserialize_data() {
    let v = DurationVisitor;
    assert_eq!(v.visit_str("100"), Ok(ms(100)));
    assert_eq!(v.visit_str("100ms"), Ok(ms(100)));
    assert_eq!(v.visit_u64(100), Ok(ms(100)));
    // the float scalar 100.0, as an exact decimal
    assert_eq!(v.visit_decimal(Decimal::new(1000, 1)), Ok(ms(100)));
}

#[test]
fn deserialize_invalid_data() {
    let v = DurationVisitor;
    assert!(v.visit_str("100#$ms&").is_err());
    assert!(v.visit_str("100ms&").is_err());
}

#[test]
fn duration_ms_strings_decode_exactly() {
    let v = DurationVisitor;
    assert_eq!(v.visit_str("150ms"), Ok(ms(150)));
    assert_eq!(v.visit_str("9999ms"), Ok(ms(9999)));
    assert_eq!(v.visit_str("10000ms"), Ok(ms(10000)));
    // an explicit unit bypasses the magnitude bands
    assert_eq!(v.visit_str("50ms"), Ok(ms(50)));
}

#[test]
fn duration_second_strings_convert_and_round() {
    let v = DurationVisitor;
    assert_eq!(v.visit_str("0.1s"), Ok(ms(100)));
    assert_eq!(v.visit_str("0.5s"), Ok(ms(500)));
    assert_eq!(v.visit_str("2s"), Ok(ms(2000)));
    assert_eq!(v.visit_str("9.999s"), Ok(ms(9999)));
    // halves round away from zero
    assert_eq!(v.visit_str("0.1005s"), Ok(ms(101)));
}

#[test]
fn duration_bare_string_matches_integer() {
    let v = DurationVisitor;
    assert_eq!(v.visit_str("100"), v.visit_u64(100));
    assert_eq!(v.visit_str("5"), v.visit_u64(5));
    assert_eq!(v.visit_u64(5), Ok(ms(5000)));
    assert_eq!(v.visit_str("20000"), v.visit_u64(20000));
}

#[test]
fn duration_out_of_band_values_are_invalid() {
    let v = DurationVisitor;
    // 0.05 is below the seconds band, 20000 above the milliseconds band
    assert_eq!(v.visit_decimal(Decimal::new(5, 2)), Err(Error::InvalidScalarValue));
    assert_eq!(v.visit_u64(20000), Err(Error::InvalidScalarValue));
    assert_eq!(v.visit_u64(0), Err(Error::InvalidScalarValue));
    assert_eq!(v.visit_u64(99), Err(Error::InvalidScalarValue));
    // the seconds band is half-open: 10 falls in neither band
    assert_eq!(v.visit_u64(10), Err(Error::InvalidScalarValue));
    assert_eq!(v.visit_str("0.09"), Err(Error::InvalidScalarValue));
}

#[test]
fn duration_malformed_prefixes() {
    let v = DurationVisitor;
    assert_eq!(v.visit_str(""), Err(Error::MalformedNumericPrefix));
    assert_eq!(v.visit_str("ms"), Err(Error::MalformedNumericPrefix));
    assert_eq!(v.visit_str("."), Err(Error::MalformedNumericPrefix));
    assert_eq!(v.visit_str("1.2.3ms"), Err(Error::MalformedNumericPrefix));
}

#[test]
fn duration_fine_resolution_is_exact() {
    let v = DurationVisitor;
    assert_eq!(v.visit_str("0.1000000000s"), Ok(ms(100)));
    assert_eq!(v.visit_str("0.1234567890s"), Ok(ms(123)));
    // halves round away from zero, and digits beyond the tracked depth
    // still decide exactly
    assert_eq!(v.visit_str("0.0005s"), Ok(ms(1)));
    assert_eq!(v.visit_str("0.0015s"), Ok(ms(2)));
    assert_eq!(v.visit_str("0.0004999999999999999999999995s"), Ok(ms(0)));
}

#[test]
fn duration_narrowing_overflow() {
    let v = DurationVisitor;
    // more than u64 can hold
    assert_eq!(
        v.visit_str("99999999999999999999999ms"),
        Err(Error::NarrowingOverflow)
    );
    // a huge seconds count overflows when scaled to milliseconds
    assert_eq!(
        v.visit_str("99999999999999999999s"),
        Err(Error::NarrowingOverflow)
    );
}

#[test]
fn duration_unrecognized_units_never_default() {
    let v = DurationVisitor;
    assert_eq!(v.visit_str("100xx"), Err(Error::UnrecognizedUnit));
    assert_eq!(v.visit_str("100MS"), Err(Error::UnrecognizedUnit));
    assert_eq!(v.visit_str("1.5h"), Err(Error::UnrecognizedUnit));
}

#[test]
fn memory_bare_values_use_magnitude_bands() {
    assert_eq!(mem_decode_u64(2), Ok(kib(2_097_152)));
    assert_eq!(mem_decode_str("256"), Ok(kib(262_144)));
    assert_eq!(mem_decode_str("256mib"), Ok(kib(262_144)));
    assert_eq!(mem_decode_str("3gb"), Ok(kib(3_145_728)));
}

#[test]
fn memory_band_edges() {
    assert_eq!(mem_decode_u64(1), Ok(kib(1_048_576)));
    assert_eq!(mem_decode_u64(10), Ok(kib(10_485_760)));
    assert_eq!(mem_decode_u64(64), Ok(kib(65_536)));
    assert_eq!(mem_decode_u64(10240), Ok(kib(10_485_760)));
    assert_eq!(mem_decode_u64(0), Err(Error::InvalidScalarValue));
    assert_eq!(mem_decode_u64(11), Err(Error::InvalidScalarValue));
    assert_eq!(mem_decode_u64(63), Err(Error::InvalidScalarValue));
    assert_eq!(mem_decode_u64(10241), Err(Error::InvalidScalarValue));
    // fractional gibibytes inside the band convert exactly
    assert_eq!(mem_decode_decimal(Decimal::new(15, 1)), Ok(kib(1_572_864)));
    assert_eq!(mem_decode_decimal(Decimal::new(5, 1)), Err(Error::InvalidScalarValue));
}

#[test]
fn memory_explicit_units_are_case_insensitive() {
    assert_eq!(mem_decode_str("64kb"), Ok(kib(64)));
    assert_eq!(mem_decode_str("2KiB"), Ok(kib(2)));
    assert_eq!(mem_decode_str("512MB"), Ok(kib(524_288)));
    assert_eq!(mem_decode_str("10GIB"), Ok(kib(10_485_760)));
}

#[test]
fn memory_unrecognized_units_never_default() {
    assert_eq!(mem_decode_str("100xx"), Err(Error::UnrecognizedUnit));
    assert_eq!(mem_decode_str("100 mb"), Err(Error::UnrecognizedUnit));
}

#[test]
fn memory_narrowing_overflow() {
    // far past the canonical 32-bit kibibyte width
    assert_eq!(mem_decode_str("99999999999gib"), Err(Error::NarrowingOverflow));
}

#[test]
fn sticky_digits_decide_inclusive_bands() {
    assert_eq!(mem_decode_str("10.000000000000000000000000"), Ok(kib(10_485_760)));
    // the faintest excess beyond 10 GiB leaves every band
    assert_eq!(
        mem_decode_str("10.000000000000000000000001"),
        Err(Error::InvalidScalarValue)
    );
    // a tail beyond the tracked depth still rounds exactly
    assert_eq!(
        mem_decode_str("1.00000000000000000000000049gib"),
        Ok(kib(1_048_576))
    );
}

#[test]
fn bare_values_past_the_width_are_out_of_band() {
    let v = DurationVisitor;
    assert_eq!(
        v.visit_str("99999999999999999999999"),
        Err(Error::InvalidScalarValue)
    );
    assert_eq!(
        mem_decode_str("99999999999999999999999"),
        Err(Error::InvalidScalarValue)
    );
}
