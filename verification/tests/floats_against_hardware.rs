use cbor2::floats::bits_are_infinite;
use cbor2::floats::bits_are_nan;
use cbor2::floats::bits_are_negative;
use cbor2::floats::half_bits_to_double;
use cbor2::floats::narrow_bits;
use cbor2::floats::single_bits_to_double;
use cbor2::floats::Precision;

#[test]
fn every_half_widens_as_the_half_crate_says() {
    for h in 0..=u16::MAX {
        let expected = half::f16::from_bits(h).to_f64().to_bits();
        assert_eq!(half_bits_to_double(h), expected, "half {:#06x}", h);
    }
}

#[test]
fn every_finite_half_narrows_back() {
    for h in 0..=u16::MAX {
        let half = half::f16::from_bits(h);
        let d = half.to_f64().to_bits();
        if half.is_nan() {
            assert_eq!(narrow_bits(Precision::Half, d), None);
        } else {
            assert_eq!(narrow_bits(Precision::Half, d), Some(h as u64), "half {:#06x}", h);
        }
    }
}

#[test]
fn singles_widen_as_the_hardware_does() {
    let mut s: u32 = 0;
    loop {
        let expected = (f32::from_bits(s) as f64).to_bits();
        if f32::from_bits(s).is_nan() {
            assert!(bits_are_nan(single_bits_to_double(s)));
        } else {
            assert_eq!(single_bits_to_double(s), expected, "single {:#010x}", s);
            assert_eq!(narrow_bits(Precision::Single, expected), Some(s as u64));
        }
        match s.checked_add(65521) {
            Some(next) => s = next,
            None => break,
        }
    }
    for s in [0u32, 1, 2, 0x007f_ffff, 0x0080_0000, 0x7f7f_ffff, 0x7f80_0000, 0x8000_0000, 0x8000_0001, 0xff80_0000] {
        let expected = (f32::from_bits(s) as f64).to_bits();
        assert_eq!(single_bits_to_double(s), expected, "single {:#010x}", s);
        assert_eq!(narrow_bits(Precision::Single, expected), Some(s as u64));
    }
}

#[test]
fn doubles_narrow_exactly_when_the_cast_round_trips() {
    let mut state: u64 = 0x9e37_79b9_7f4a_7c15;
    for _ in 0..200_000 {
        state ^= state << 13;
        state ^= state >> 7;
        state ^= state << 17;
        for d in [state, state & 0xffff_ffff_e000_0000, state & 0xffff_fc00_0000_0000] {
            let value = f64::from_bits(d);
            if value.is_nan() {
                assert_eq!(narrow_bits(Precision::Single, d), None);
                assert_eq!(narrow_bits(Precision::Half, d), None);
                continue;
            }
            let single = value as f32;
            let exact_single = single as f64 == value;
            assert_eq!(
                narrow_bits(Precision::Single, d),
                if exact_single { Some(single.to_bits() as u64) } else { None },
                "double {:#018x}",
                d
            );
            let half = half::f16::from_f64(value);
            let exact_half = half.to_f64() == value;
            assert_eq!(
                narrow_bits(Precision::Half, d),
                if exact_half { Some(half.to_bits() as u64) } else { None },
                "double {:#018x}",
                d
            );
        }
    }
}

#[test]
fn classifies_special_doubles() {
    assert!(bits_are_nan(f64::NAN.to_bits()));
    assert!(!bits_are_nan(f64::INFINITY.to_bits()));
    assert!(bits_are_infinite(f64::INFINITY.to_bits()));
    assert!(bits_are_infinite(f64::NEG_INFINITY.to_bits()));
    assert!(!bits_are_infinite(f64::MAX.to_bits()));
    assert!(bits_are_negative((-0.0f64).to_bits()));
    assert!(!bits_are_negative(0.0f64.to_bits()));
}
