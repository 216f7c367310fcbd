use formula::num::Num;

#[test]
fn num_constructors() {
    assert!(Num::new(1, 0).is_none());
    let v = Num::new(-3, 4).unwrap();
    assert_eq!(v.num(), -3);
    assert_eq!(v.den(), 4);
    let w = Num::from_int(-3);
    assert_eq!(w.num(), -3);
    assert_eq!(w.den(), 1);
}

#[test]
fn num_exact_arithmetic() {
    let a = Num::new(1, 2).unwrap();
    let b = Num::new(1, 3).unwrap();
    // 1/2 + 1/3 = 5/6
    let s = a.checked_add(b).unwrap();
    assert!(s.value_eq(Num::new(5, 6).unwrap()));
    // 1/2 - 1/3 = 1/6
    let d = a.checked_sub(b).unwrap();
    assert!(d.value_eq(Num::new(1, 6).unwrap()));
    // 1/2 * 1/3 = 1/6
    let m = a.checked_mul(b).unwrap();
    assert!(m.value_eq(Num::new(1, 6).unwrap()));
    // (1/2) / (1/3) = 3/2
    let q = a.checked_div(b).unwrap();
    assert!(q.value_eq(Num::new(3, 2).unwrap()));
    // division moves a negative sign into the numerator
    let q2 = a.checked_div(Num::from_int(-2)).unwrap();
    assert_eq!(q2.num(), -1);
    assert_eq!(q2.den(), 4);
}

#[test]
fn num_remainder_truncates_toward_zero() {
    let r = Num::from_int(-2).checked_rem(Num::from_int(3)).unwrap();
    assert!(r.value_eq(Num::from_int(-2)));
    let r = Num::from_int(7).checked_rem(Num::from_int(-3)).unwrap();
    assert!(r.value_eq(Num::from_int(1)));
    // 7/2 % 3/2 = 1/2
    let r = Num::new(7, 2)
        .unwrap()
        .checked_rem(Num::new(3, 2).unwrap())
        .unwrap();
    assert!(r.value_eq(Num::new(1, 2).unwrap()));
}

#[test]
fn num_failure_cases() {
    let big = Num::new(i64::MAX, 1).unwrap();
    assert!(big.checked_add(Num::from_int(1)).is_none());
    assert!(big.checked_mul(Num::from_int(2)).is_none());
    assert!(Num::from_int(1).checked_div(Num::from_int(0)).is_none());
    assert!(Num::from_int(1).checked_rem(Num::from_int(0)).is_none());
    // a denominator past the machine range fails even when the value
    // would reduce
    let tiny = Num::new(1, u64::MAX).unwrap();
    assert!(tiny.checked_mul(tiny).is_none());
}

#[test]
fn num_comparisons() {
    let a = Num::new(1, 2).unwrap();
    let b = Num::new(2, 4).unwrap();
    let c = Num::new(2, 3).unwrap();
    assert!(a.value_eq(b));
    assert!(!a.value_eq(c));
    assert!(a.value_lt(c));
    assert!(!c.value_lt(a));
    assert!(a.value_le(b));
    assert!(a.value_le(c));
    let m = Num::from_int(-1);
    assert!(m.value_lt(a));
}
