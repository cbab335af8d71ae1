use lwe_pir::element::Element;
use lwe_pir::error::LweError;
use std::cmp::Ordering;

fn gen_q() -> u64 {
    101u64
}

#[test]
fn test_new() {
    let q = gen_q();
    let f = Element::new(q);
    assert_eq!(f.uint, 0u64);
}

#[test]
fn test_add() {
    let f = Element::from(gen_q(), 0u64);
    let g = Element::from(gen_q(), 1u64);
    let r = f + g;
    assert_eq!(r.uint, 1u64);

    let f = Element::from(gen_q(), 1u64);
    let g = Element::from(gen_q(), 1u64);
    let r = f + g;
    assert_eq!(r.uint, 2u64);
}

#[test]
fn test_add_assign() {
    let mut f = Element::from(gen_q(), 0u64);
    let g = Element::from(gen_q(), 1u64);
    f.add_assign(g);
    assert_eq!(f.uint, 1u64);
}

#[test]
fn test_sub() {
    let f = Element::from(gen_q(), 0u64);
    let g = Element::from(gen_q(), 1u64);
    let r = f - g;
    assert_eq!(r.uint, 100u64);
}

#[test]
fn test_sub_assign() {
    let mut f = Element::from(gen_q(), 0u64);
    let g = Element::from(gen_q(), 1u64);
    f.sub_assign(g);
    assert_eq!(f.uint, 100u64);
}

#[test]
fn test_mul() {
    let f = Element::from(gen_q(), 0u64);
    let g = Element::from(gen_q(), 2u64);
    let r = f * g;
    assert_eq!(r.uint, 0u64);

    let f = Element::from(gen_q(), 3u64);
    let g = Element::from(gen_q(), 5u64);
    let r = f * g;
    assert_eq!(r.uint, 15u64);
}

#[test]
fn test_mul_assign() {
    let mut f = Element::from(gen_q(), 100u64);
    let g = Element::from(gen_q(), 2u64);
    f.mul_assign(g);
    assert_eq!(f.uint, 99u64);
}

#[test]
fn test_recompose() {
    let q = gen_q();
    for i in 0..q {
        for p in 2..3 {
            let e = Element::from(q, i);
            let d = e.to_owned().decomposed(p);
            assert_eq!(Element::recompose(p, q, &d), e);
        }
    }
}

#[test]
fn test_decomposed() {
    let q = gen_q();
    assert_eq!(Element::from(q, 1u64).decomposed(2), vec![1, 0, 0, 0, 0, 0, 0]);
    assert_eq!(Element::from(q, 2u64).decomposed(2), vec![0, 1, 0, 0, 0, 0, 0]);
    assert_eq!(Element::from(q, 3u64).decomposed(2), vec![1, 1, 0, 0, 0, 0, 0]);
    assert_eq!(Element::from(q, 4u64).decomposed(2), vec![0, 0, 1, 0, 0, 0, 0]);
    assert_eq!(Element::from(q, 100u64).decomposed(2), vec![0, 0, 1, 0, 0, 1, 1]);
}

#[test]
fn zero_and_is_zero() {
    let z = Element::zero(7);
    assert_eq!(z, Element { q: 7, uint: 0 });
    assert!(z.is_zero());
    assert!(!Element::from(7, 3).is_zero());
}

#[test]
fn checked_from_rejects_out_of_range() {
    assert_eq!(Element::checked_from(101, 100), Ok(Element::from(101, 100)));
    assert_eq!(Element::checked_from(101, 101), Err(LweError::OutOfRange));
    assert_eq!(Element::checked_from(101, 500), Err(LweError::OutOfRange));
    assert_eq!(Element::checked_from(u64::MAX, 3), Err(LweError::OutOfRange));
}

#[test]
fn arithmetic_wraps_near_large_modulus() {
    let q = u64::MAX - 1;
    let a = Element::from(q, q - 1);
    let b = Element::from(q, q - 2);
    assert_eq!((a + b).uint, q - 3);
    assert_eq!((a * b).uint, 2);
    assert_eq!((b - a).uint, q - 1);
    assert_eq!((a - b).uint, 1);
}

#[test]
fn ordering_within_and_across_rings() {
    let a = Element::from(101, 3);
    let b = Element::from(101, 5);
    assert_eq!(a.partial_cmp(&b), Some(Ordering::Less));
    assert_eq!(b.partial_cmp(&a), Some(Ordering::Greater));
    assert_eq!(a.partial_cmp(&a), Some(Ordering::Equal));
    assert!(a < b);
    let c = Element::from(103, 3);
    assert_eq!(a.partial_cmp(&c), None);
}

#[test]
fn recompose_exact_value() {
    assert_eq!(Element::recompose(2, 101, &vec![0, 0, 1, 0, 0, 1, 1]), Element::from(101, 100));
    assert_eq!(Element::recompose(10, 1000, &vec![3, 2, 1]), Element::from(1000, 123));
    assert_eq!(Element::recompose(3, 5, &vec![]), Element::from(5, 0));
}

#[test]
fn decomposed_digit_counts() {
    // ceil(log_3(100)) = 5
    assert_eq!(Element::from(101, 100).decomposed(3), vec![1, 0, 2, 0, 1]);
    // ceil(log_2(4)) = 2
    assert_eq!(Element::from(5, 3).decomposed(2), vec![1, 1]);
    // ceil(log_2(1)) = 0
    assert_eq!(Element::from(2, 0).decomposed(2), Vec::<u64>::new());
}

#[test]
fn decomposition_round_trip_other_radices() {
    let q = 1000u64;
    for p in 2..12u64 {
        for v in 0..q {
            let e = Element::from(q, v);
            let d = e.decomposed(p);
            assert_eq!(Element::recompose(p, q, &d), e);
        }
    }
}

#[test]
fn accept_draw_rejects_below_bound() {
    let q = 10u64;
    // (u64::MAX - 10) % 10 == 5
    assert_eq!(Element::accept_draw(q, 4), None);
    assert_eq!(Element::accept_draw(q, 5), Some(Element::from(q, 5)));
    assert_eq!(Element::accept_draw(q, 1237), Some(Element::from(q, 7)));
}

#[test]
fn uniform_draws_stay_in_range_and_spread() {
    let q = 10u64;
    let trials = 20000;
    let mut counts = vec![0u64; q as usize];
    for _ in 0..trials {
        let e = Element::gen_uniform_rand(q);
        assert_eq!(e.q, q);
        assert!(e.uint < q);
        counts[e.uint as usize] += 1;
    }
    let expected = trials as f64 / q as f64;
    let chi2: f64 = counts.iter().map(|&c| (c as f64 - expected).powi(2) / expected).sum();
    // 9 degrees of freedom: the 0.1% critical value is about 27.9
    assert!(chi2 < 27.9, "chi-square statistic {}", chi2);
}
