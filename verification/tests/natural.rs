use simplex_engine::natural::Natural;

fn wide(value: u128) -> Natural {
    let limbs = (0..4).map(|k| (value >> (32 * k)) as u32).collect();
    Natural::from_limbs(limbs)
}

fn narrow(n: &Natural) -> u128 {
    let limbs = n.to_limbs();
    let mut value: u128 = 0;
    for (k, limb) in limbs.iter().enumerate() {
        if k < 4 {
            value |= (*limb as u128) << (32 * k);
        } else {
            assert_eq!(*limb, 0);
        }
    }
    value
}

const SAMPLES: [u128; 9] = [
    0,
    1,
    2,
    0xffff_ffff,
    0x1_0000_0000,
    0xffff_ffff_ffff_ffff,
    0x1_0000_0000_0000_0000,
    0x1234_5678_9abc_def0_0fed_cba9,
    0xffff_ffff_ffff_ffff_ffff_ffff,
];

#[test]
fn zero_is_zero() {
    assert!(Natural::zero().is_zero());
    assert!(Natural::from_limbs(vec![0, 0, 0]).is_zero());
    assert!(!Natural::from_u64(1).is_zero());
    assert!(!Natural::from_limbs(vec![0, 0, 1]).is_zero());
}

#[test]
fn from_u64_keeps_the_value() {
    for v in [0u64, 1, 0xffff_ffff, 0x1_0000_0000, u64::MAX] {
        assert_eq!(narrow(&Natural::from_u64(v)), v as u128);
    }
}

#[test]
fn leading_zero_limbs_do_not_change_the_value() {
    let short = Natural::from_limbs(vec![7, 9]);
    let long = Natural::from_limbs(vec![7, 9, 0, 0, 0]);
    assert!(short.eq(&long));
    assert_eq!(narrow(&long), 7 + (9u128 << 32));
}

#[test]
fn sums_carry_across_limbs() {
    for a in SAMPLES {
        for b in SAMPLES {
            assert_eq!(narrow(&wide(a).add(&wide(b))), a + b);
        }
    }
    let all_ones = Natural::from_limbs(vec![u32::MAX, u32::MAX, u32::MAX]);
    assert_eq!(all_ones.add(&Natural::from_u64(1)).to_limbs()[..4], [0, 0, 0, 1]);
}

#[test]
fn differences_borrow_across_limbs() {
    for a in SAMPLES {
        for b in SAMPLES {
            let difference = wide(a).checked_sub(&wide(b));
            if a >= b {
                assert_eq!(narrow(&difference.expect("a difference")), a - b);
            } else {
                assert!(difference.is_none());
            }
        }
    }
}

#[test]
fn order_follows_the_value() {
    for a in SAMPLES {
        for b in SAMPLES {
            assert_eq!(wide(a).lt(&wide(b)), a < b);
            assert_eq!(wide(a).eq(&wide(b)), a == b);
        }
    }
}

#[test]
fn products_of_limbs() {
    for a in SAMPLES {
        for m in [0u32, 1, 2, 0x8000_0000, u32::MAX] {
            if let Some(expected) = a.checked_mul(m as u128) {
                assert_eq!(narrow(&wide(a).mul_small(m)), expected);
            }
        }
    }
}

#[test]
fn products_of_numbers() {
    for a in SAMPLES {
        for b in SAMPLES {
            if let Some(expected) = a.checked_mul(b) {
                assert_eq!(narrow(&wide(a).mul(&wide(b))), expected);
            }
        }
    }
    let big = Natural::from_limbs(vec![u32::MAX, u32::MAX, u32::MAX]);
    let square = big.mul(&big);
    assert_eq!(square.to_limbs()[..6], [1, 0, 0, 0xffff_fffe, 0xffff_ffff, 0xffff_ffff]);
}

#[test]
fn push_low_shifts_by_one_limb() {
    let n = Natural::from_u64(5).push_low(3);
    assert_eq!(narrow(&n), 3 + (5u128 << 32));
}

#[test]
fn quotient_and_remainder() {
    for a in SAMPLES {
        for d in SAMPLES {
            if d != 0 {
                let (q, r) = wide(a).div_rem(&wide(d));
                assert_eq!(narrow(&q), a / d);
                assert_eq!(narrow(&r), a % d);
            }
        }
    }
}

#[test]
fn quotient_of_a_long_number() {
    let a = Natural::from_limbs(vec![1, 2, 3, 4, 5, 6]);
    let d = Natural::from_limbs(vec![0xdead_beef, 0x1234, 7]);
    let (q, r) = a.div_rem(&d);
    assert!(r.lt(&d));
    assert!(q.mul(&d).add(&r).eq(&a));
}

#[test]
fn greatest_common_divisor() {
    let cases: [(u128, u128, u128); 7] = [
        (0, 0, 0),
        (0, 9, 9),
        (9, 0, 9),
        (12, 18, 6),
        (17, 5, 1),
        (1 << 100, 1 << 70, 1 << 70),
        (600851475143 * 1000003, 600851475143 * 999983, 600851475143),
    ];
    for (a, b, g) in cases {
        assert_eq!(narrow(&wide(a).gcd(&wide(b))), g);
    }
}

#[test]
fn limbs_round_trip() {
    let limbs = vec![5, 0, 0xffff_ffff, 1];
    let n = Natural::from_limbs(limbs.clone());
    assert!(Natural::from_limbs(n.to_limbs()).eq(&n));
    assert_eq!(n.to_limbs(), limbs);
    assert!(n.clone().eq(&n));
}
