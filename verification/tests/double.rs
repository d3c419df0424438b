//! The arithmetic on bit patterns against that of the machine.
use gov::double;
use gov::duration::Duration;

/// Patterns of all sizes from a fixed sequence.
fn patterns() -> Vec<u64> {
    let mut all = vec![
        0,
        1,
        2,
        0xf_ffff_ffff_ffff,
        0x10_0000_0000_0000,
        0x10_0000_0000_0001,
        0x3cb0_0000_0000_0000,
        1.0f64.to_bits(),
        0.1f64.to_bits(),
        1000.0f64.to_bits(),
        (u64::MAX as f64).to_bits(),
        9007199254740993.0f64.to_bits(),
        0x7fef_ffff_ffff_ffff,
    ];
    let mut x: u64 = 0x9e37_79b9_7f4a_7c15;
    for _ in 0..300 {
        x ^= x << 13;
        x ^= x >> 7;
        x ^= x << 17;
        all.push(x % double::INFINITY);
        // Near one, where sums and differences have digits in common.
        all.push(0x3f00_0000_0000_0000 + x % 0x0200_0000_0000_0000);
    }
    all
}

#[test]
fn products_and_quotients_round_like_the_machine() {
    let all = patterns();
    for &a in &all {
        for &b in all.iter().step_by(7) {
            let (x, y) = (f64::from_bits(a), f64::from_bits(b));
            assert_eq!(double::multiply(a, b), (x * y).to_bits(), "{x:e} * {y:e}");
            if b > 0 {
                assert_eq!(double::divide(a, b), (x / y).to_bits(), "{x:e} / {y:e}");
            }
        }
    }
}

#[test]
fn sums_and_differences_round_like_the_machine() {
    let all = patterns();
    for &a in &all {
        for &b in all.iter().step_by(7) {
            let (x, y) = (f64::from_bits(a), f64::from_bits(b));
            assert_eq!(double::plus(a, b), (x + y).to_bits(), "{x:e} + {y:e}");
            if b <= a {
                assert_eq!(double::minus(a, b), (x - y).to_bits(), "{x:e} - {y:e}");
            }
        }
    }
}

#[test]
fn conversions_round_like_the_machine() {
    for &a in &patterns() {
        assert_eq!(double::to_u64(a), f64::from_bits(a) as u64);
        assert_eq!(double::from_u64(a), (a as f64).to_bits());
    }
    for n in [0, 1, 1000, (1 << 53) - 1, 1 << 53, (1 << 53) + 1, (1 << 53) + 3, u64::MAX] {
        assert_eq!(double::from_u64(n), (n as f64).to_bits());
    }
}

#[test]
fn spans_convert_like_those_of_the_standard_library() {
    let mut x: u64 = 0x0123_4567_89ab_cdef;
    for i in 0..2000u32 {
        x ^= x << 13;
        x ^= x >> 7;
        x ^= x << 17;
        let (secs, nanos) = (x >> (i % 64), (x % 1_000_000_000) as u32);
        let ours = Duration::from_parts(secs, nanos).unwrap();
        let theirs = std::time::Duration::new(secs, nanos);
        assert_eq!(ours.as_secs_double(), theirs.as_secs_f64().to_bits());
        assert_eq!(ours.as_millis(), theirs.as_millis());
        assert_eq!(ours.is_zero(), theirs.is_zero());
        let seconds = f64::from_bits(x % 0x43f0_0000_0000_0000);
        let ours = Duration::from_secs_double(seconds.to_bits());
        let theirs = std::time::Duration::from_secs_f64(seconds);
        assert_eq!((ours.as_secs(), ours.subsec_nanos()), (theirs.as_secs(), theirs.subsec_nanos()));
    }
    assert!(Duration::from_parts(1, 1_000_000_000).is_none());
}
