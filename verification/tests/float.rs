//! Numbers in integers, held against the machine's own.
use astral::float::{add_singles, reciprocal, single_from, Double, Single};

fn single(value: f32) -> Single {
    Single { bits: value.to_bits() }
}

/// A simple generator of bit patterns.
fn scramble(state: u64) -> u64 {
    let mut x = state.wrapping_add(0x9e37_79b9_7f4a_7c15);
    x = (x ^ (x >> 30)).wrapping_mul(0xbf58_476d_1ce4_e5b9);
    x = (x ^ (x >> 27)).wrapping_mul(0x94d0_49bb_1331_11eb);
    x ^ (x >> 31)
}

#[test]
fn whole_numbers_are_rounded_to_singles() {
    let fixed = [1u64, 2, 3, 60, 61, 16_777_215, 16_777_216, 16_777_217, 16_777_218, 16_777_219, u64::MAX];
    for n in fixed {
        assert_eq!(single_from(n).bits, (n as f32).to_bits(), "{n}");
    }
    for i in 0..2000u64 {
        let n = scramble(i) >> (i % 64);
        if n > 0 {
            assert_eq!(single_from(n).bits, (n as f32).to_bits(), "{n}");
        }
    }
}

#[test]
fn sums_are_rounded_to_singles() {
    for i in 0..4000u64 {
        let a = f32::from_bits(0x2000_0000 + (scramble(i) as u32) % 0x3000_0000);
        let b = f32::from_bits(0x2000_0000 + (scramble(i + 7000) as u32) % 0x3000_0000);
        assert_eq!(add_singles(single(a), single(b)).bits, (a + b).to_bits(), "{a} + {b}");
        // Numbers of nearly the same size.
        let c = f32::from_bits(a.to_bits() + (scramble(i + 9000) as u32) % 0x0200_0000);
        assert_eq!(add_singles(single(a), single(c)).bits, (a + c).to_bits(), "{a} + {c}");
    }
    assert_eq!(add_singles(single(0.0), single(1.5)), single(1.5));
    assert_eq!(add_singles(single(1.5), single(0.0)), single(1.5));
    assert_eq!(add_singles(single(f32::MAX), single(f32::MAX)), single(f32::INFINITY));
    assert_eq!(add_singles(single(f32::INFINITY), single(0.0)), single(f32::INFINITY));
    assert_eq!(add_singles(single(1e20), single(1e-20)), single(1e20));
}

#[test]
fn reciprocals_are_rounded_to_singles() {
    for i in 0..4000u64 {
        let a = f32::from_bits(0x2000_0000 + (scramble(i) as u32) % 0x3000_0000);
        assert_eq!(reciprocal(single(a)).bits, (1.0 / a).to_bits(), "1 / {a}");
    }
    assert_eq!(reciprocal(single(61.0)), single(1.0 / 61.0));
    assert_eq!(reciprocal(single(2.0)), single(0.5));
}

#[test]
fn keys_follow_the_total_order() {
    let mut values = vec![
        f32::NAN, -f32::NAN, f32::INFINITY, f32::NEG_INFINITY, 0.0, -0.0, 1.0, -1.0, 1e-40, -1e-40,
    ];
    for i in 0..500u64 {
        values.push(f32::from_bits(scramble(i) as u32));
    }
    for a in &values {
        for b in &values {
            let ascending = single(*a).ascending_key().cmp(&single(*b).ascending_key());
            assert_eq!(ascending, a.total_cmp(b));
            let descending = single(*a).descending_key().cmp(&single(*b).descending_key());
            assert_eq!(descending, b.total_cmp(a));
        }
    }
}

#[test]
fn four_places_are_those_of_formatting() {
    let fixed = [
        0.0, -0.0, 0.5, 1.0 / 61.0, 2.0 / 62.0, 0.03125, 0.09375, 0.00005, 0.99995, 123456.789,
        -7.25, 1e-40, f32::MIN_POSITIVE, f32::MAX, f32::INFINITY, f32::NEG_INFINITY, f32::NAN,
        8388608.0, 16777216.0, 0.000_030_517_578,
    ];
    for value in fixed {
        assert_eq!(single(value).four_places(), format!("{value:.4}"), "{value}");
    }
    for i in 0..4000u64 {
        let value = f32::from_bits(scramble(i) as u32);
        assert_eq!(single(value).four_places(), format!("{value:.4}"), "{value}");
        let small = f32::from_bits(0x3000_0000 + (scramble(i) as u32) % 0x1000_0000);
        assert_eq!(single(small).four_places(), format!("{small:.4}"), "{small}");
    }
}

#[test]
fn roots_are_rounded_to_doubles() {
    for i in 0..4000u64 {
        let n = (scramble(i) as u32) >> (i % 32);
        if n > 0 {
            let expected = 3.0 + 2.0 * (n as f64).sqrt();
            assert_eq!(Double::from_root(n).bits, expected.to_bits(), "{n}");
        }
    }
    assert_eq!(f64::from_bits(Double::from_root(1).bits), 5.0);
    assert_eq!(f64::from_bits(Double::from_root(u32::MAX).bits), 3.0 + 2.0 * (u32::MAX as f64).sqrt());
    let limit = Double { bits: 40.0f64.to_bits() };
    assert_eq!(Double::from_root(10_000).at_most(limit), limit);
    assert_eq!(Double::from_root(4).at_most(limit), Double { bits: 7.0f64.to_bits() });
}
