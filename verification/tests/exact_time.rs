use fraction::Fraction as Exact;
use magic_piano::timestamp::Fraction;

fn frac(whole_value: u32, numerator: u32, denominator: u32) -> Fraction {
    Fraction { numerator, denominator, whole_value }
}

fn exact(f: &Fraction) -> Exact {
    Exact::new(f.numerator, f.denominator) + Exact::from(f.whole_value)
}

fn samples() -> Vec<Fraction> {
    let mut all = vec![
        frac(0, 0, 1),
        frac(0, 1, 2),
        frac(0, 2, 4),
        frac(1, 0, 1),
        frac(0, 4, 4),
        frac(0, 3, 2),
        frac(1, 1, 2),
        frac(7, 5, 3),
        frac(0, 1, 3),
        frac(0, 333, 1000),
        frac(2, 7, 8),
        frac(u32::MAX, u32::MAX, 1),
        frac(u32::MAX, u32::MAX - 1, u32::MAX),
        frac(0, u32::MAX, u32::MAX),
        frac(0, 1, u32::MAX),
        frac(0, u32::MAX, 2),
    ];
    for d in 1..6u32 {
        for n in 0..7u32 {
            all.push(frac(n % 3, n, d));
        }
    }
    all
}

#[test]
fn zero_denominator_has_no_time() {
    assert!(frac(1, 1, 0).to_rust_fraction().is_none());
    assert!(frac(0, 0, 1).to_rust_fraction().is_some());
}

#[test]
fn order_agrees_with_exact_fractions() {
    let all = samples();
    for a in &all {
        for b in &all {
            let (ta, tb) = (a.to_rust_fraction().unwrap(), b.to_rust_fraction().unwrap());
            assert_eq!(ta.is_before(&tb), exact(a) < exact(b), "{a:?} < {b:?}");
            assert_eq!(ta.is_same(&tb), exact(a) == exact(b), "{a:?} == {b:?}");
        }
    }
}

#[test]
fn sums_agree_with_exact_fractions() {
    let small: Vec<Fraction> = samples().into_iter().filter(|f| f.denominator < 1000 && f.whole_value < 1000).collect();
    for a in &small {
        for b in &small {
            for c in &small {
                let sum = a.plus(b);
                let other = c.to_rust_fraction().unwrap();
                let expected = exact(a) + exact(b);
                assert_eq!(other.is_before(&sum), exact(c) < expected, "{c:?} < {a:?} + {b:?}");
                assert_eq!(sum.is_before(&other), expected < exact(c), "{a:?} + {b:?} < {c:?}");
                assert_eq!(sum.is_same(&other), expected == exact(c), "{a:?} + {b:?} == {c:?}");
            }
        }
    }
}

#[test]
fn sums_of_the_largest_fractions_are_exact() {
    let big = frac(u32::MAX, u32::MAX - 1, u32::MAX);
    let sum = big.plus(&big);
    let twice = frac(u32::MAX, 0, 1).plus(&frac(u32::MAX, 0, 1));
    assert!(twice.is_before(&sum));
    let two_more = frac(u32::MAX, 2, 1).plus(&frac(u32::MAX, 0, 1));
    assert!(sum.is_before(&two_more));
    assert!(!sum.is_same(&two_more));
    // 2 * (MAX + (MAX - 1) / MAX) is 2 * MAX + 1 + (MAX - 2) / MAX.
    assert!(sum.is_same(&frac(u32::MAX, u32::MAX - 2, u32::MAX).plus(&frac(u32::MAX, 1, 1))));
}

#[test]
fn one_half_plus_one_third_is_five_sixths() {
    let sum = frac(0, 1, 2).plus(&frac(0, 1, 3));
    assert!(sum.is_same(&frac(0, 5, 6).to_rust_fraction().unwrap()));
    assert!(sum.is_same(&frac(0, 10, 12).to_rust_fraction().unwrap()));
    assert!(!sum.is_same(&frac(0, 4, 6).to_rust_fraction().unwrap()));
    assert!(frac(0, 4, 5).to_rust_fraction().unwrap().is_before(&sum));
    assert!(sum.is_before(&frac(0, 6, 7).to_rust_fraction().unwrap()));
}
