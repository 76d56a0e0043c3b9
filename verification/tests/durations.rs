use ap_project::report::format_duration;
use ap_project::rng::Xorshift;

fn reference(nanos: u128) -> String {
    if nanos < 10_000 {
        format!("{nanos} ns")
    } else if nanos < 10_000_000 {
        format!("{:.1} us", nanos as f64 / 1_000.0)
    } else {
        format!("{:.1} ms", nanos as f64 / 1_000_000.0)
    }
}

#[test]
fn small_durations_in_nanoseconds() {
    assert_eq!(format_duration(0), "0 ns");
    assert_eq!(format_duration(7), "7 ns");
    assert_eq!(format_duration(9_999), "9999 ns");
}

#[test]
fn microseconds_and_milliseconds_with_one_decimal() {
    assert_eq!(format_duration(10_000), "10.0 us");
    assert_eq!(format_duration(12_345), "12.3 us");
    assert_eq!(format_duration(9_999_999), "10000.0 us");
    assert_eq!(format_duration(10_000_000), "10.0 ms");
    assert_eq!(format_duration(35_000_000_000), "35000.0 ms");
}

#[test]
fn ties_round_as_the_double_does() {
    // 10.25 is a double: the tie goes to the even digit
    assert_eq!(format_duration(10_250), "10.2 us");
    assert_eq!(format_duration(10_750), "10.8 us");
    // 10.15 is not: the nearest double lies above it
    assert_eq!(format_duration(10_150), reference(10_150));
    for n in (10_050..20_000).step_by(100) {
        assert_eq!(format_duration(n), reference(n), "n = {n}");
    }
    for n in (10_050_000..12_000_000).step_by(100_000) {
        assert_eq!(format_duration(n), reference(n), "n = {n}");
    }
}

#[test]
fn agrees_with_float_formatting_everywhere() {
    for n in 9_990..30_000 {
        assert_eq!(format_duration(n), reference(n), "n = {n}");
    }
    let mut rng = Xorshift::new(42);
    for _ in 0..20_000 {
        let hi = rng.next_u64() as u128;
        let lo = rng.next_u64() as u128;
        let bits = (rng.next_u64() % 128) as u32;
        let n = ((hi << 64) | lo) >> bits;
        assert_eq!(format_duration(n), reference(n), "n = {n}");
    }
    for n in [u128::MAX, u128::MAX / 3, 1u128 << 100, (1u128 << 53) + 1, 9_007_199_254_740_993_000] {
        assert_eq!(format_duration(n), reference(n), "n = {n}");
    }
}
