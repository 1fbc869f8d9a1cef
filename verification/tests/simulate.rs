use pick9::compute::{Collector, round, run_rounds};

#[test]
fn run_rounds_tallies_add_up() {
    let mut rng = fastrand::Rng::with_seed(42);
    let n = 500usize;
    let c = run_rounds(&mut rng, n);
    let tdn: usize = c.three_digit_number.iter().sum();
    let m9: usize = c.mod_by_9.iter().sum();
    let d9c: usize = c.divided_by_9_count.iter().sum();
    let heads: usize = c.coin_head_calc.iter().sum();
    let tails: usize = c.coin_tail_calc.iter().sum();
    assert_eq!(tdn, 4 * n);
    assert_eq!(m9, 4 * n);
    assert_eq!(d9c, n);
    assert_eq!(heads + tails, n);
}

#[test]
fn three_digit_numbers_stay_in_range() {
    let mut rng = fastrand::Rng::with_seed(7);
    let c = run_rounds(&mut rng, 200);
    for i in 0..114 {
        assert_eq!(c.three_digit_number[i], 0);
    }
    let in_range: usize = c.three_digit_number[114..=669].iter().sum();
    assert_eq!(in_range, 800);
}

#[test]
fn round_returns_a_small_tally_index() {
    let mut rng = fastrand::Rng::with_seed(1);
    let mut c = Collector::new();
    for _ in 0..100 {
        let x = round(&mut rng, &mut c);
        assert!(x <= 16);
    }
}

#[test]
fn into_vec_keeps_the_counts() {
    let mut rng = fastrand::Rng::with_seed(3);
    let c = run_rounds(&mut rng, 50);
    let expected = c.divided_by_9_count.clone();
    let v = c.into_vec();
    assert_eq!(v.divided_by_9_count, expected);
    assert_eq!(v.three_digit_number.len(), 670);
    assert_eq!(v.mod_by_9.len(), 9);
    assert_eq!(v.coin_head_calc.len(), 17);
    assert_eq!(v.coin_tail_calc.len(), 6);
}
