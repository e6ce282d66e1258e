use std::str::FromStr;
use veloq_bank::{BankError, Swizzle};

fn reason_of(e: BankError) -> (String, String) {
    match e {
        BankError::InvalidSwizzle { raw, reason } => (raw, reason),
        other => panic!("expected InvalidSwizzle, got {other:?}"),
    }
}

#[test]
fn swizzle_is_its_own_inverse() {
    for (b, m, s) in [(2u8, 4u8, 2u8), (3, 3, 3), (1, 0, 1), (4, 2, 5), (8, 0, 56)] {
        let sw = Swizzle::new(b, m, s).unwrap();
        for x in [0u64, 1, 63, 64, 80, 192, 240, 1000, 4095, 0xdead_beef, u64::MAX] {
            let y = sw.apply(x).unwrap();
            assert_eq!(sw.apply(y).unwrap(), x, "swizzle {b},{m},{s} on {x}");
        }
    }
}

#[test]
fn swizzle_flips_target_bits_by_source_bits() {
    let sw = Swizzle::new(2, 4, 2).unwrap();
    for x in 0u64..1024 {
        let y = sw.apply(x).unwrap();
        for i in 0..64u64 {
            let flip = (4..6).contains(&i) && (x >> (i + 2)) & 1 == 1;
            assert_eq!((y >> i) & 1 == 1, ((x >> i) & 1 == 1) != flip);
        }
    }
}

#[test]
fn swizzle_new_reports_each_refusal() {
    assert_eq!(
        reason_of(Swizzle::new(0, 2, 2).unwrap_err()),
        ("0,2,2".to_string(), "B must be greater than 0".to_string())
    );
    assert_eq!(
        reason_of(Swizzle::new(2, 2, 0).unwrap_err()),
        ("2,2,0".to_string(), "S must be greater than 0".to_string())
    );
    assert_eq!(
        reason_of(Swizzle::new(3, 2, 1).unwrap_err()),
        ("3,2,1".to_string(), "S must be >= B, got S=1 < B=3".to_string())
    );
    assert_eq!(
        reason_of(Swizzle::new(4, 40, 30).unwrap_err()),
        ("4,40,30".to_string(), "bit range M + S + B = 74 exceeds 64 bits".to_string())
    );
    assert!(Swizzle::new(4, 30, 30).is_ok());
}

#[test]
fn swizzle_apply_refuses_unshiftable_masks() {
    let bad_target = Swizzle { b: 2, m: 64, s: 2 };
    assert_eq!(
        reason_of(bad_target.apply(5).unwrap_err()),
        ("2,64,2".to_string(), "shift overflow in target mask".to_string())
    );
    let bad_source = Swizzle { b: 1, m: 60, s: 4 };
    assert_eq!(
        reason_of(bad_source.apply(5).unwrap_err()),
        ("1,60,4".to_string(), "shift overflow in source mask".to_string())
    );
    let zero_bits = Swizzle { b: 0, m: 3, s: 1 };
    assert_eq!(zero_bits.apply(0xff).unwrap(), 0xff);
}

#[test]
fn swizzle_bit_ranges_and_text() {
    let sw = Swizzle::new(1, 4, 2).unwrap();
    assert_eq!(sw.target_bits(), vec![4]);
    assert_eq!(sw.source_bits(), vec![6]);
    assert_eq!(sw.operation_str(), "bits[4] ^= bits[6]");
    assert_eq!(sw.to_array(), [1, 4, 2]);
    let sw = Swizzle::new(3, 0, 3).unwrap();
    assert_eq!(sw.untouched_bits(), Vec::<u32>::new());
    assert_eq!(sw.operation_str(), "bits[2:0] ^= bits[5:3]");
    assert_eq!(sw.patterns(), 8);
}

#[test]
fn swizzle_patterns_saturate() {
    assert_eq!(Swizzle { b: 0, m: 0, s: 0 }.patterns(), 1);
    assert_eq!(Swizzle { b: 63, m: 0, s: 0 }.patterns(), 1u64 << 63);
    assert_eq!(Swizzle { b: 64, m: 0, s: 0 }.patterns(), u64::MAX);
    assert_eq!(Swizzle { b: 200, m: 0, s: 0 }.patterns(), u64::MAX);
}

#[test]
fn swizzle_text_forms() {
    let expected = Swizzle::new(2, 4, 2).unwrap();
    for text in ["2,4,2", "<2,4,2>", "(2 4 2)", " <2;4;2> ", "<(2, 4, 2)>", "2,,4,,2"] {
        assert_eq!(Swizzle::from_str(text).unwrap(), expected, "{text}");
    }
}

#[test]
fn swizzle_text_refusals() {
    match Swizzle::from_str("2,4") {
        Err(BankError::InvalidSwizzle { raw, reason }) => {
            assert_eq!(raw, "2,4");
            assert_eq!(reason, "expected 3 components B,M,S, got 2");
        }
        other => panic!("unexpected {other:?}"),
    }
    match Swizzle::from_str("2,4,0") {
        Err(BankError::UnsupportedNegativeShift { raw }) => assert_eq!(raw, "2,4,0"),
        other => panic!("unexpected {other:?}"),
    }
    match Swizzle::from_str("a,4,2") {
        Err(BankError::InvalidSwizzle { reason, .. }) => {
            assert_eq!(reason, "failed to parse B as u8: invalid digit found in string")
        }
        other => panic!("unexpected {other:?}"),
    }
    match Swizzle::from_str("2,300,2") {
        Err(BankError::InvalidSwizzle { reason, .. }) => {
            assert_eq!(reason, "failed to parse M as u8: number too large to fit in target type")
        }
        other => panic!("unexpected {other:?}"),
    }
    match Swizzle::from_str("2,4,+") {
        Err(BankError::InvalidSwizzle { reason, .. }) => {
            assert_eq!(reason, "failed to parse S as u8: invalid digit found in string")
        }
        other => panic!("unexpected {other:?}"),
    }
    match Swizzle::from_str("2,4,-99999999999999999999") {
        Err(BankError::InvalidSwizzle { reason, .. }) => {
            assert_eq!(reason, "failed to parse S as u8: invalid digit found in string")
        }
        other => panic!("unexpected {other:?}"),
    }
    match Swizzle::from_str("3,2,1") {
        Err(BankError::InvalidSwizzle { raw, reason }) => {
            assert_eq!(raw, "3,2,1");
            assert_eq!(reason, "S must be >= B, got S=1 < B=3");
        }
        other => panic!("unexpected {other:?}"),
    }
}

#[test]
fn swizzle_text_reads_back() {
    for b in 1..=8u8 {
        for m in [0u8, 3, 10, 40] {
            for s in [b, b + 1, 20] {
                if let Ok(sw) = Swizzle::new(b, m, s) {
                    assert_eq!(Swizzle::from_str(&format!("{b},{m},{s}")).unwrap(), sw);
                }
            }
        }
    }
}

#[test]
fn swizzle_bit_ranges_are_ordered() {
    let sw = Swizzle::new(3, 5, 4).unwrap();
    let untouched = sw.untouched_bits();
    let target = sw.target_bits();
    let source = sw.source_bits();
    assert!(untouched.iter().all(|u| target.iter().all(|t| u < t)));
    assert!(target.iter().all(|t| source.iter().all(|s| t < s)));
    assert!(source.iter().all(|s| *s < 64));
    assert_eq!(source, vec![9, 10, 11]);
}
