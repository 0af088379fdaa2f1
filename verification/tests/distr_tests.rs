use dnd_calc::distr::{Distr, Ratio};
use dnd_calc::error::{Error, ErrorKind, Origin};

#[test]
fn unif_has_one_entry_per_face() {
    let d = Distr::unif(6);
    assert_eq!(d.len(), 6);
    assert_eq!(d.iter(), vec![1, 2, 3, 4, 5, 6]);
    for x in 1..=6 {
        assert_eq!(d.prob(x), 1);
    }
    assert_eq!(d.prob(0), 0);
    assert_eq!(d.prob(7), 0);
    assert_eq!(d.total(), 6);
}

#[test]
fn unif_mean_is_half_of_faces_plus_one() {
    for n in 1..50 {
        let mean = Distr::unif(n).mean();
        assert_eq!(mean.num * 2, (n as i128 + 1) * mean.den as i128);
    }
    assert_eq!(Distr::unif(6).mean(), Ratio { num: 21, den: 6 });
}

#[test]
fn unif_without_faces_has_no_outcome() {
    assert_eq!(Distr::unif(0).len(), 0);
    assert_eq!(Distr::unif(-3).len(), 0);
    assert_eq!(Distr::unif(0).total(), 0);
    assert_eq!(Distr::unif(0).mean(), Ratio { num: 0, den: 0 });
}

#[test]
fn stacked_unifs_range_and_weight() {
    for k in 1..5 {
        for n in 1..7 {
            let d = Distr::stacked_unifs(k, n);
            let outcomes = d.iter();
            assert_eq!(outcomes[0], k);
            assert_eq!(outcomes[outcomes.len() - 1], k * n);
            assert_eq!(d.total(), (n as u128).pow(k as u32));
            let sum: u128 = outcomes.iter().map(|x| d.prob(*x)).sum();
            assert_eq!(sum, d.total());
        }
    }
}

#[test]
fn stacked_unifs_of_two_dice() {
    let d = Distr::stacked_unifs(2, 6);
    let weights: Vec<u128> = d.iter().iter().map(|x| d.prob(*x)).collect();
    assert_eq!(weights, vec![1, 2, 3, 4, 5, 6, 5, 4, 3, 2, 1]);
    assert_eq!(d.mean(), Ratio { num: 252, den: 36 });
}

#[test]
fn stacked_unifs_of_no_dice_is_certainly_zero() {
    let d = Distr::stacked_unifs(0, 6);
    assert_eq!(d.iter(), vec![0]);
    assert_eq!(d.prob(0), 1);
    assert_eq!(d.try_to_num().unwrap(), 0);
}

#[test]
fn stacked_unifs_of_a_negative_count_is_one_die() {
    let d = Distr::stacked_unifs(-2, 4);
    assert_eq!(d.iter(), vec![1, 2, 3, 4]);
}

#[test]
fn try_stacked_unifs_refuses_what_does_not_fit() {
    assert!(Distr::dice_fit(30, 6));
    assert!(Distr::dice_fit(32, 6));
    assert!(!Distr::dice_fit(33, 6));
    assert!(Distr::dice_fit(19, 20));
    assert!(!Distr::dice_fit(20, 20));
    assert!(Distr::dice_fit(1000, 1));
    assert!(!Distr::dice_fit(2, 2147483647));
    assert!(Distr::dice_fit(1, 2147483647));
    assert!(Distr::dice_fit(5, 0));
    let e = Distr::try_stacked_unifs(33, 6).unwrap_err();
    assert_eq!(e.kind, ErrorKind::Overflow);
    assert_eq!(e.origin, Origin::Distribution);
    assert!(!e.reason.is_empty());
    assert_eq!(Distr::try_stacked_unifs(3, 4).unwrap().total(), 64);
}

#[test]
fn combining_points_adds_them() {
    let a = Distr::certain(3);
    let b = Distr::certain(4);
    let sum = a.combine_op(&b, |x, y| x + y);
    assert_eq!(sum.try_to_num().unwrap(), a.try_to_num().unwrap() + b.try_to_num().unwrap());
    assert_eq!(sum.prob(7), 1);
    let product = a.combine_op(&b, |x, y| x * y);
    assert_eq!(product.try_to_num().unwrap(), 12);
}

#[test]
fn combine_sums_the_mass_of_pairs_that_meet() {
    let d4 = Distr::unif(4);
    let d = d4.combine_op(&d4, |x, y| x - y);
    assert_eq!(d.iter(), vec![-3, -2, -1, 0, 1, 2, 3]);
    let weights: Vec<u128> = d.iter().iter().map(|x| d.prob(*x)).collect();
    assert_eq!(weights, vec![1, 2, 3, 4, 3, 2, 1]);
    assert_eq!(d.total(), 16);
    let same = d4.combine_op(&d4, |_, _| 9);
    assert_eq!(same.iter(), vec![9]);
    assert_eq!(same.prob(9), 16);
}

#[test]
fn combine_with_the_empty_distribution_is_empty() {
    let d = Distr::unif(4).combine_op(&Distr::new(), |x, y| x + y);
    assert_eq!(d.len(), 0);
    let d = Distr::new().combine_op(&Distr::unif(4), |x, y| x + y);
    assert_eq!(d.len(), 0);
}

#[test]
fn combine_fallible_stops_at_the_first_failure() {
    let a = Distr::unif(3);
    let b = Distr::unif(3);
    let r = a.combine_fallible_op(&b, |x, y| {
        if x + y > 4 {
            Err(Error::fail(ErrorKind::Overflow, Origin::Distribution, format!("{} {}", x, y)))
        } else {
            Ok(x + y)
        }
    });
    let e = r.unwrap_err();
    assert_eq!(e.kind, ErrorKind::Overflow);
    assert_eq!(e.origin, Origin::Distribution);
    assert_eq!(
        e.reason,
        "no result for the outcomes 2 and 3\n    Caused by:   [distribution] 2 3"
    );
    let r = a.combine_fallible_op(&b, |x, y| Ok(x * y));
    let d = r.unwrap();
    assert_eq!(d.iter(), vec![1, 2, 3, 4, 6, 9]);
    assert_eq!(d.prob(2), 2);
    assert_eq!(d.prob(4), 1);
}

#[test]
fn update_prob_keeps_outcomes_in_order() {
    let mut d = Distr::new();
    d.update_prob(5, 2);
    d.update_prob(-1, 1);
    d.update_prob(3, 4);
    d.update_prob(5, 1);
    d.update_prob(9, 0);
    assert_eq!(d.iter(), vec![-1, 3, 5, 9]);
    assert_eq!(d.prob(5), 3);
    assert_eq!(d.prob(9), 0);
    assert_eq!(d.len(), 4);
    assert_eq!(d.total(), 8);
}

#[test]
fn try_to_num_needs_exactly_one_outcome() {
    assert_eq!(Distr::certain(-7).try_to_num().unwrap(), -7);
    let e = Distr::unif(2).try_to_num().unwrap_err();
    assert_eq!(e.kind, ErrorKind::NotScalar);
    assert_eq!(e.opt_span, None);
    let e = Distr::new().try_to_num().unwrap_err();
    assert_eq!(e.kind, ErrorKind::NotScalar);
}

#[test]
fn variance_of_a_die() {
    let q = Distr::unif(6).variance().unwrap();
    // 6 * 91 - 21 * 21 over 36, which is 35 / 12
    assert_eq!(q, Ratio { num: 105, den: 36 });
    let q = Distr::certain(5).variance().unwrap();
    assert_eq!(q, Ratio { num: 0, den: 1 });
    assert!(Distr::stacked_unifs(24, 6).variance().is_none());
}

fn value_of(q: Ratio) -> f64 {
    q.num as f64 / q.den as f64
}

#[test]
fn stdev_is_the_root_of_the_variance() {
    let q = Distr::unif(3).stdev().unwrap();
    assert_eq!(q, Ratio { num: 2449489742, den: 3000000000 });
    assert!((value_of(q) - (2.0f64 / 3.0).sqrt()).abs() < 1e-9);
    let q = Distr::unif(6).stdev().unwrap();
    assert!((value_of(q) - (35.0f64 / 12.0).sqrt()).abs() < 1e-9);
    let q = Distr::unif(2).stdev().unwrap();
    assert_eq!(q, Ratio { num: 1000000000, den: 2000000000 });
    let q = Distr::from(5).stdev().unwrap();
    assert_eq!(q.num, 0);
    assert_eq!(value_of(q), 0.0);
    for k in 1..8 {
        for n in 1..9 {
            let d = Distr::stacked_unifs(k, n);
            let v = d.variance().unwrap();
            let q = d.stdev().unwrap();
            assert!((value_of(q) - value_of(v).sqrt()).abs() < 1e-9);
            assert!(value_of(q) * value_of(q) <= value_of(v) + 1e-12);
        }
    }
    assert!(Distr::stacked_unifs(22, 6).stdev().is_some());
    assert!(Distr::stacked_unifs(24, 6).stdev().is_none());
}

#[test]
fn stdev_of_far_outcomes() {
    let mut d = Distr::new();
    d.update_prob(i32::MIN, 1);
    d.update_prob(i32::MAX, 1);
    let q = d.stdev().unwrap();
    assert!((value_of(q) - 2147483647.5).abs() < 1e-6);
}

#[test]
fn stat_view_shows_three_decimals() {
    assert_eq!(Distr::unif(6).stat_view(), "<Mean: 3.500, Stdev: 1.708>");
    assert_eq!(Distr::certain(-2).stat_view(), "<Mean: -2.000, Stdev: 0.000>");
    assert_eq!(Distr::unif(3).stat_view(), "<Mean: 2.000, Stdev: 0.816>");
    assert_eq!(Distr::new().stat_view(), "<Mean: 0.000, Stdev: 0.000>");
    assert_eq!(Distr::stacked_unifs(24, 6).stat_view(), "<Mean: 84.000, Stdev: n/a>");
}

#[test]
fn table_view_shows_five_decimals() {
    let d = Distr::unif(3);
    assert_eq!(
        d.table_view(),
        "  x | P(x)\n ---\u{254b}-----\n  1 | 0.33333\n  2 | 0.33333\n  3 | 0.33333\n"
    );
    let mut d = Distr::new();
    d.update_prob(10, 2);
    d.update_prob(-100, 1);
    assert_eq!(
        d.table_view(),
        "  x | P(x)\n ---\u{254b}-----\n -100 | 0.33333\n 10 | 0.66667\n"
    );
}

#[test]
fn hist_view_scales_bars_to_the_heaviest() {
    assert_eq!(Distr::new().hist_view(), "The Never Distribution.");
    let mut d = Distr::new();
    d.update_prob(1, 4);
    d.update_prob(3, 1);
    let expected = format!(" 1: {}\n 2: \n 3: {}\n", "X".repeat(50), "X".repeat(12));
    assert_eq!(d.hist_view(), expected);
}

#[test]
fn thirty_dice_with_six_faces() {
    let d = Distr::stacked_unifs(30, 6);
    let outcomes = d.iter();
    assert_eq!(outcomes[0], 30);
    assert_eq!(outcomes[outcomes.len() - 1], 180);
    assert_eq!(outcomes.len(), 151);
    assert_eq!(d.total(), 6u128.pow(30));
    let sum: u128 = outcomes.iter().map(|x| d.prob(*x)).sum();
    assert_eq!(sum, d.total());
    assert_eq!(d.prob(30), 1);
    assert_eq!(d.prob(180), 1);
    assert_eq!(d.prob(29), 0);
    assert_eq!(d.prob(181), 0);
    assert_eq!(d.mean(), Ratio { num: 105 * 6i128.pow(30), den: 6u128.pow(30) });
    assert_eq!(d.stat_view(), "<Mean: 105.000, Stdev: n/a>");
}
