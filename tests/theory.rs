use queues::ratio::Ratio;
use queues::theory::{QueueTheory, TheoryError, MMC, MMCK};

fn value(r: Ratio) -> f64 {
    r.num as f64 / r.den as f64
}

fn assert_approx_eq(expected: f64, actual: f64, tolerance: f64) {
    assert!(
        (expected - actual).abs() <= tolerance,
        "expected {} but got {} (tolerance {})",
        expected,
        actual,
        tolerance
    );
}

#[test]
#[allow(non_snake_case)]
fn example__3_4() {
    let mm3 = MMC::new(Ratio::new(6, 1), Ratio::new(3, 1), 3).unwrap();
    assert_approx_eq(1. / 9., value(mm3.proportion(0).unwrap()), 1.0e-16);
    assert_approx_eq(8. / 9., value(mm3.number_in_queue()), 2.3e-16);
    assert_approx_eq(28.9 / 60., value(mm3.wait_in_system()), 5.0e-2 / 60.);

    let p0 = mm3.proportion(0).unwrap();
    let p1 = mm3.proportion(1).unwrap();
    let p2 = mm3.proportion(2).unwrap();
    assert_eq!(p0.den, p1.den);
    assert_eq!(p0.den, p2.den);
    let fraction_of_time_with_idleness = Ratio::new(p0.num + p1.num + p2.num, p0.den);
    assert_approx_eq(5. / 9., value(fraction_of_time_with_idleness), 1.0e-16);
}

#[test]
#[allow(non_snake_case)]
fn example__3_6() {
    let mm37 = MMCK::new(Ratio::new(1, 1), Ratio::new(1, 6), 3, 4).unwrap();
    assert_approx_eq(0.00088, value(mm37.proportion(0).unwrap()), 5.0e-6);
    assert_approx_eq(3.09, value(mm37.number_in_queue()), 5.0e-3);
    assert_approx_eq(6.06, value(mm37.number_in_system()), 5.0e-3);
    assert_approx_eq(12.3, value(mm37.wait_in_system()), 6.2e-2);
}

#[test]
fn mmc_exact_values_of_the_three_server_example() {
    let m = MMC::new(Ratio::new(6, 1), Ratio::new(3, 1), 3).unwrap();
    let p0 = m.p(0).unwrap();
    assert_eq!(p0.num * 9, p0.den);
    let lq = m.l_q();
    assert_eq!(lq.num * 9, lq.den * 8);
    // L = r + Lq = 2 + 8/9 = 26/9; W = L / 6 = 13/27; Wq = Lq / 6 = 4/27.
    let l = m.l();
    assert_eq!(l.num * 9, l.den * 26);
    let w = m.w();
    assert_eq!(w.num * 27, w.den * 13);
    let wq = m.w_q();
    assert!(!wq.negative);
    assert_eq!(wq.magnitude.num * 27, wq.magnitude.den * 4);
    // p_3 = p_2 * 2 / 3 = 4/27, p_4 = p_3 * 2/3 = 8/81.
    let p3 = m.p(3).unwrap();
    assert_eq!(p3.num * 27, p3.den * 4);
    let p4 = m.p(4).unwrap();
    assert_eq!(p4.num * 81, p4.den * 8);
}

#[test]
fn mmc_little_law_on_the_example() {
    let lambda = Ratio::new(6, 1);
    let m = MMC::new(lambda, Ratio::new(3, 1), 3).unwrap();
    let l = m.l();
    let w = m.w();
    // L = λ W
    assert_eq!(l.num * w.den, lambda.num * w.num * l.den / lambda.den);
    let lq = m.l_q();
    let wq = m.w_q().magnitude;
    assert_eq!(lq.num * wq.den, lambda.num * wq.num * lq.den / lambda.den);
}

#[test]
fn mmc_rejects_invalid_configurations() {
    assert_eq!(MMC::new(Ratio::new(0, 1), Ratio::new(3, 1), 3).err(), Some(TheoryError::InvalidRate));
    assert_eq!(MMC::new(Ratio::new(6, 1), Ratio::new(3, 0), 3).err(), Some(TheoryError::InvalidRate));
    assert_eq!(MMC::new(Ratio::new(6, 1), Ratio::new(3, 1), 0).err(), Some(TheoryError::NoServers));
    // ρ = 6 / (2 * 3) = 1: no steady state.
    assert_eq!(MMC::new(Ratio::new(6, 1), Ratio::new(3, 1), 2).err(), Some(TheoryError::Unstable));
    assert_eq!(MMC::new(Ratio::new(7, 1), Ratio::new(3, 1), 2).err(), Some(TheoryError::Unstable));
    assert_eq!(
        MMC::new(Ratio::new(u128::MAX, 1), Ratio::new(1, u128::MAX), 1).err(),
        Some(TheoryError::Overflow)
    );
}

#[test]
fn mmck_probabilities_sum_to_one() {
    let m = MMCK::new(Ratio::new(1, 1), Ratio::new(1, 6), 3, 4).unwrap();
    let mut sum: u128 = 0;
    let den = m.p(0).unwrap().den;
    for n in 0..=7u32 {
        let p = m.p(n).unwrap();
        assert_eq!(p.den, den);
        sum += p.num;
    }
    assert_eq!(sum, den);
    assert_eq!(m.p(8).unwrap().num, 0);
}

#[test]
fn mmck_with_unit_traffic_intensity() {
    // λ = 2, μ = 1, c = 2: ρ = 1. Weights 1, 2, 2, 2, 2 (K = 2): p0 = 1/9.
    let m = MMCK::new(Ratio::new(2, 1), Ratio::new(1, 1), 2, 2).unwrap();
    let p0 = m.p(0).unwrap();
    assert_eq!(p0.num * 9, p0.den);
    let p4 = m.p(4).unwrap();
    assert_eq!(p4.num * 9, p4.den * 2);
    // Lq = (1 * 2 + 2 * 2) / 9 = 6/9.
    let lq = m.l_q();
    assert_eq!(lq.num * 9, lq.den * 6);
}

#[test]
fn mmck_wait_in_queue_can_be_negative() {
    // λ = 1, μ = 10, c = 1, K = 1: W = 1/100 and Wq = W - 1/10 < 0.
    let m = MMCK::new(Ratio::new(1, 1), Ratio::new(10, 1), 1, 1).unwrap();
    let w = m.w();
    assert_eq!(w.num * 100, w.den);
    let wq = m.w_q();
    assert!(wq.negative);
    assert_eq!(wq.magnitude.num * 100, wq.magnitude.den * 9);
}

#[test]
fn mmck_rejects_invalid_configurations() {
    assert_eq!(MMCK::new(Ratio::new(1, 1), Ratio::new(0, 6), 3, 4).err(), Some(TheoryError::InvalidRate));
    assert_eq!(MMCK::new(Ratio::new(1, 1), Ratio::new(1, 6), 0, 4).err(), Some(TheoryError::NoServers));
    assert_eq!(
        MMCK::new(Ratio::new(1, 1), Ratio::new(1, 6), 200, 4).err(),
        Some(TheoryError::Overflow)
    );
}

#[test]
fn mmc_probabilities_approach_one() {
    let m = MMC::new(Ratio::new(6, 1), Ratio::new(3, 1), 3).unwrap();
    let mut sum = 0.;
    for n in 0..=33u32 {
        sum += value(m.p(n).unwrap());
    }
    // The remainder is (a^(c+1) / total) ρ^J with ρ = 2/3 and J = 30.
    let remainder = 1. - sum;
    assert!(remainder > 0.);
    assert_approx_eq(6f64.powi(34) / (9f64.powi(30) * 4374.), remainder, 1.0e-12);
}

#[test]
fn mmc_reports_a_proportion_too_large_to_hold() {
    let m = MMC::new(Ratio::new(6, 1), Ratio::new(3, 1), 3).unwrap();
    assert!(m.p(200).is_none());
    assert_eq!(m.servers(), 3);
    assert_eq!(m.lambda(), Ratio::new(6, 1));
    assert_eq!(m.mu(), Ratio::new(3, 1));
}

#[test]
fn rates_need_not_be_in_lowest_terms() {
    let m = MMC::new(Ratio::new(6_000_000, 1_000_000), Ratio::new(3_000_000, 1_000_000), 3).unwrap();
    let p0 = m.p(0).unwrap();
    assert_eq!(p0.num * 9, p0.den);
    let k = MMCK::new(Ratio::new(1_000_000, 1_000_000), Ratio::new(1_000, 6_000), 3, 4).unwrap();
    assert_approx_eq(0.00088, value(k.p(0).unwrap()), 5.0e-6);
}

#[test]
fn many_servers_are_solved() {
    // λ = 5, μ = 1, c = 25: ρ = 0.2. The terms that fit in 128 bits hold
    // all but a negligible part of the mass.
    let m = MMC::new(Ratio::new(5, 1), Ratio::new(1, 1), 25).unwrap();
    let mut sum = 0.;
    for n in 0..=30u32 {
        sum += value(m.p(n).unwrap());
    }
    assert_approx_eq(1., sum, 1.0e-9);
    // Little's law: L = λ W.
    assert_approx_eq(value(m.l()), 5. * value(m.w()), 1.0e-9);
}
