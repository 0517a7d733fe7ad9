use polysolve::bigint::{BigInt, Sign};

#[test]
fn addition_simple() {
    assert_eq!(
        BigInt::from_i64(1).add(&BigInt::from_i64(2)),
        BigInt::from_i64(3)
    );
}

#[test]
fn addition_overflowing() {
    assert_eq!(
        BigInt {
            sign: Sign::Positive,
            digits: vec![u64::MAX]
        }
        .add(&BigInt {
            sign: Sign::Positive,
            digits: vec![1]
        }),
        BigInt {
            sign: Sign::Positive,
            digits: vec![0, 1]
        }
    );

    assert_eq!(
        BigInt {
            sign: Sign::Positive,
            digits: vec![u64::MAX]
        }
        .add(&BigInt {
            sign: Sign::Positive,
            digits: vec![100]
        }),
        BigInt {
            sign: Sign::Positive,
            digits: vec![99, 1]
        }
    );

    assert_eq!(
        BigInt {
            sign: Sign::Positive,
            digits: vec![u64::MAX]
        }
        .add(&BigInt {
            sign: Sign::Positive,
            digits: vec![u64::MAX]
        }),
        BigInt {
            sign: Sign::Positive,
            digits: vec![u64::MAX - 1, 1]
        }
    );

    assert_eq!(
        BigInt {
            sign: Sign::Positive,
            digits: vec![u64::MAX, 5]
        }
        .add(&BigInt {
            sign: Sign::Positive,
            digits: vec![u64::MAX, 10]
        }),
        BigInt {
            sign: Sign::Positive,
            digits: vec![u64::MAX - 1, 16]
        }
    );
}

#[test]
fn addition_not_simple() {
    // (+) + (-) = (-)
    assert_eq!(
        BigInt::from_i64(5).add(&BigInt::from_i64(-9)),
        BigInt::from_i64(-4)
    );

    // (+) + (-) = (+)
    assert_eq!(
        BigInt::from_i64(69).add(&BigInt::from_i64(-9)),
        BigInt::from_i64(60)
    );

    // (-) + (+) = (-)
    assert_eq!(
        BigInt::from_i64(-10).add(&BigInt::from_i64(9)),
        BigInt::from_i64(-1)
    );

    // (-) + (+) = (+)
    assert_eq!(
        BigInt::from_i64(-9).add(&BigInt::from_i64(10)),
        BigInt::from_i64(1)
    );

    // (-) + (-) = (-)
    assert_eq!(
        BigInt::from_i64(-10).add(&BigInt::from_i64(-9)),
        BigInt::from_i64(-19)
    );
}

#[test]
fn addition_different_digits_len() {
    assert_eq!(
        BigInt {
            sign: Sign::Positive,
            digits: vec![0]
        }
        .add(&BigInt {
            sign: Sign::Positive,
            digits: vec![1, 2]
        }),
        BigInt {
            sign: Sign::Positive,
            digits: vec![1, 2]
        }
    );

    assert_eq!(
        BigInt {
            sign: Sign::Positive,
            digits: vec![1]
        }
        .add(&BigInt {
            sign: Sign::Positive,
            digits: vec![1, 2]
        }),
        BigInt {
            sign: Sign::Positive,
            digits: vec![2, 2]
        }
    );
}

#[test]
fn subtraction_simple() {
    // (+) - (+) = (+)
    assert_eq!(
        BigInt::from_i64(5).sub(&BigInt::from_i64(2)),
        BigInt::from_i64(3)
    );

    // (+) - (+) = (-)
    assert_eq!(
        BigInt::from_i64(1).sub(&BigInt::from_i64(69)),
        BigInt::from_i64(-68)
    );
}

#[test]
fn subtraction_overflowing() {
    // (+) - (+) = (-)
    assert_eq!(
        BigInt {
            sign: Sign::Positive,
            digits: vec![0]
        }
        .sub(&BigInt {
            sign: Sign::Positive,
            digits: vec![1, u64::MAX]
        }),
        BigInt {
            sign: Sign::Negative,
            digits: vec![1, u64::MAX]
        }
    );
}

#[test]
fn subtraction_not_simple() {
    // (+) - (-) = (+)
    assert_eq!(
        BigInt::from_i64(5).sub(&BigInt::from_i64(-69)),
        BigInt::from_i64(74)
    );

    // (-) - (+) = (-)
    assert_eq!(
        BigInt::from_i64(-69).sub(&BigInt::from_i64(5)),
        BigInt::from_i64(-74)
    );

    // (-) - (-) = (-)
    assert_eq!(
        BigInt::from_i64(-69).sub(&BigInt::from_i64(-5)),
        BigInt::from_i64(-64)
    );

    // (-) - (-) = (+)
    assert_eq!(
        BigInt::from_i64(-5).sub(&BigInt::from_i64(-69)),
        BigInt::from_i64(64)
    );
}

#[test]
fn bigint_multiplication() {
    assert_eq!(
        BigInt {
            sign: Sign::Positive,
            digits: vec![0, 5]
        }
        .mul(&BigInt {
            sign: Sign::Positive,
            digits: vec![0, 3]
        }),
        BigInt {
            sign: Sign::Positive,
            digits: vec![0, 0, 15]
        }
    );

    assert_eq!(
        BigInt {
            sign: Sign::Positive,
            digits: vec![1, 5]
        }
        .mul(&BigInt {
            sign: Sign::Positive,
            digits: vec![1, 3]
        }),
        BigInt {
            sign: Sign::Positive,
            digits: vec![1, 8, 15]
        }
    );

    assert_eq!(
        BigInt {
            sign: Sign::Positive,
            digits: vec![69, 78, 420]
        }
        .mul(&BigInt {
            sign: Sign::Positive,
            digits: vec![420, 69, 78]
        }),
        BigInt {
            sign: Sign::Positive,
            digits: vec![28980, 37521, 187164, 35064, 32760]
        }
    );

    assert_eq!(
        BigInt {
            sign: Sign::Positive,
            digits: vec![69, 78, 420]
        }
        .mul(&BigInt {
            sign: Sign::Positive,
            digits: vec![2]
        }),
        BigInt {
            sign: Sign::Positive,
            digits: vec![138, 156, 840]
        }
    );
}

#[test]
fn shl() {
    assert_eq!(
        BigInt::from_i64(1).shl(1),
        BigInt {
            sign: Sign::Positive,
            digits: vec![0, 1]
        }
    );

    assert_eq!(
        BigInt {
            sign: Sign::Positive,
            digits: vec![1, 2]
        }
        .shl(5),
        BigInt {
            sign: Sign::Positive,
            digits: vec![0, 0, 0, 0, 0, 1, 2]
        }
    );
}

#[test]
fn bigint_ordering() {
    assert!(BigInt::from_i64(1) < BigInt::from_i64(2));
    assert!(BigInt::from_i64(1) > BigInt::from_i64(-2));
    assert!(BigInt::from_i64(-10) < BigInt::from_i64(-2));

    assert!(
        BigInt {
            sign: Sign::Negative,
            digits: vec![0]
        } == BigInt {
            sign: Sign::Positive,
            digits: vec![0]
        }
    );
}

#[test]
fn single_limb_sum_carries_into_extra_limb() {
    // the largest single-limb value plus one occupies a second limb
    let sum = BigInt::from_u64(u64::MAX).add(&BigInt::from_u64(1));
    assert_eq!(
        sum,
        BigInt {
            sign: Sign::Positive,
            digits: vec![0, 1]
        }
    );
}

#[test]
fn multiplication_with_large_limbs() {
    // (2^64 - 1)^2 = [1, 2^64 - 2]
    assert_eq!(
        BigInt::from_u64(u64::MAX).mul(&BigInt::from_u64(u64::MAX)),
        BigInt {
            sign: Sign::Positive,
            digits: vec![1, u64::MAX - 1]
        }
    );

    // signs: (-a) * b is negative
    assert_eq!(
        BigInt::from_i64(-3).mul(&BigInt::from_i64(7)),
        BigInt::from_i64(-21)
    );
    assert_eq!(
        BigInt::from_i64(-3).mul(&BigInt::from_i64(-7)),
        BigInt::from_i64(21)
    );
}

#[test]
fn negation_of_zero_stays_zero() {
    let zero = BigInt::new();
    assert_eq!(zero.neg(), zero);
    assert_eq!(BigInt::from_i64(-5).neg(), BigInt::from_i64(5));
}

#[test]
fn comparison_decides_by_lower_limbs() {
    // equal-length vectors with equal top limbs differ by a lower limb
    let a = BigInt {
        sign: Sign::Positive,
        digits: vec![5, 7],
    };
    let b = BigInt {
        sign: Sign::Positive,
        digits: vec![6, 7],
    };
    assert!(a < b);
    assert!(a != b);
    let c = BigInt {
        sign: Sign::Negative,
        digits: vec![5, 7],
    };
    let d = BigInt {
        sign: Sign::Negative,
        digits: vec![6, 7],
    };
    assert!(c > d);
}

#[test]
fn high_zero_limbs_carry_no_weight() {
    // equality and subtraction follow the denoted values
    let five_padded = BigInt {
        sign: Sign::Positive,
        digits: vec![5, 0],
    };
    assert_eq!(five_padded, BigInt::from_i64(5));
    assert_eq!(
        five_padded.sub(&BigInt::from_i64(7)),
        BigInt::from_i64(-2)
    );
}
