use qtmcalc::qtmcore::{Qtm, QtmError};
use qtmcalc::qtmdata::QtmData;
use qtmcalc::rational::{clamp_frac, Frac};
use qtmcalc::utility::clamp_xsize;

fn fr(num: i128, den: i128) -> Frac {
    Frac { num, den }
}

fn to_f64(f: &Frac) -> f64 {
    f.num as f64 / f.den as f64
}

fn close(a: f64, b: f64) -> bool {
    (a - b).abs() < 1e-9
}

fn reference_model() -> Qtm {
    Qtm::new(2, 1, fr(10, 1), fr(5, 1), fr(0, 1), -1).unwrap()
}

#[test]
fn core_check_fs() {
    let comp = vec![
        0.14285714285714285,
        0.2857142857142857,
        0.2857142857142857,
        0.2857142857142857,
    ];

    let mut qtm = reference_model();
    qtm.calc_final_states().unwrap();
    let ret = qtm.final_states();

    assert_eq!(ret.len(), comp.len());
    for i in 0..comp.len() {
        assert!(close(to_f64(&ret[i]), comp[i]));
    }
}

#[test]
fn data_check_avg_queue() {
    let comp = 0.2857142857142857;

    let mut qtm = reference_model();
    qtm.calc_final_states().unwrap();
    let ret = QtmData::calc_avg_queue(&qtm).unwrap();

    assert!(close(to_f64(&ret), comp));
}

#[test]
fn data_check_ete() {
    let comp = 0.71428571428571419;

    let mut qtm = reference_model();
    qtm.calc_final_states().unwrap();
    let ret = QtmData::calc_ete(&qtm).unwrap();

    assert!(close(to_f64(&ret), comp));
}

#[test]
fn data_check_avg_time_queue() {
    let comp = 0.71428571428571419;

    let mut qtm = reference_model();
    qtm.calc_final_states().unwrap();
    let ret = QtmData::calc_avg_time_queue(&qtm).unwrap();

    assert!(close(to_f64(&ret), comp));
}

#[test]
fn data_check_perc_served_req() {
    let comp = 0.7142857142857143;

    let mut qtm = reference_model();
    qtm.calc_final_states().unwrap();
    let ret = QtmData::calc_perc_served_req(&qtm).unwrap();

    assert!(close(to_f64(&ret), comp));
}

#[test]
fn data_check_avg_count_served_req() {
    let comp = 1.7142857142857142;

    let mut qtm = reference_model();
    qtm.calc_final_states().unwrap();
    let ret = QtmData::calc_avg_count_served_req(&qtm).unwrap();

    assert!(close(to_f64(&ret), comp));
}

#[test]
fn data_check_avg_count_req() {
    let comp = 1.7142857142857142;

    let mut qtm = reference_model();
    qtm.calc_final_states().unwrap();
    let ret = QtmData::calc_avg_count_req(&qtm).unwrap();

    assert!(close(to_f64(&ret), comp));
}

#[test]
fn reference_scenario_exact() {
    // the reference distribution is exactly [1/7, 2/7, 2/7, 2/7]
    let mut qtm = reference_model();
    let fs = qtm.calc_final_states().unwrap();
    assert_eq!(fs.len(), 4);
    assert_eq!(fs[0].num * 7, fs[0].den);
    for f in &fs[1..] {
        assert_eq!(f.num * 7, 2 * f.den);
    }
}

#[test]
fn probability_mass_invariant() {
    let configs = vec![
        (3usize, 2usize, fr(7, 2), fr(3, 2), fr(1, 3), -1isize),
        (2, 2, fr(1, 1), fr(1, 1), fr(0, 1), 10),
        (1, 0, fr(5, 1), fr(3, 1), fr(0, 1), -1),
        (2, 3, fr(4, 1), fr(1, 2), fr(2, 1), 7),
    ];
    for (c, qs, la, mu, nu, n) in configs {
        let mut qtm = Qtm::new(c, qs, la, mu, nu, n).unwrap();
        let v = qtm.calc_final_states().unwrap();
        let sum: f64 = v.iter().map(to_f64).sum();
        assert!((sum - 1.0).abs() < 1e-9);
    }
}

#[test]
fn non_negativity() {
    let configs = vec![
        (3usize, 2usize, fr(7, 2), fr(3, 2), fr(1, 3), -1isize),
        (2, 2, fr(1, 1), fr(1, 1), fr(0, 1), 10),
        (1, 0, fr(5, 1), fr(3, 1), fr(0, 1), -1),
    ];
    for (c, qs, la, mu, nu, n) in configs {
        let mut qtm = Qtm::new(c, qs, la, mu, nu, n).unwrap();
        let v = qtm.calc_final_states().unwrap();
        for f in &v {
            assert!(to_f64(f) >= -1e-9);
            // the exact solution is entrywise non-negative
            assert!(f.num >= 0);
        }
    }
}

#[test]
fn loss_system_no_queue() {
    // queue_size = 0 collapses the model to a pure loss system
    let mut qtm = Qtm::new(2, 0, fr(10, 1), fr(5, 1), fr(0, 1), -1).unwrap();
    qtm.calc_final_states().unwrap();
    let ret = QtmData::calc_avg_queue(&qtm).unwrap();
    assert_eq!(ret.num, 0);
    assert_eq!(to_f64(&ret), 0.0);
}

#[test]
fn clamp_contract_ordered() {
    assert_eq!(clamp_xsize::<usize>(5, 1, 3), 3);
    assert_eq!(clamp_xsize::<usize>(0, 1, 3), 1);
    assert_eq!(clamp_xsize::<usize>(2, 1, 3), 2);
    // inverted range: the lower bound always wins
    assert_eq!(clamp_xsize::<usize>(9, 7, 3), 7);
    assert_eq!(clamp_xsize::<usize>(1, 7, 3), 7);
    assert_eq!(clamp_xsize::<isize>(-4, 0, 2), 0);
    assert_eq!(clamp_xsize::<isize>(-1, 0, -2), 0);
    assert_eq!(clamp_xsize::<isize>(1, 0, 2), 1);
}

#[test]
fn clamp_contract_rational() {
    let r = clamp_frac(fr(5, 2), fr(0, 1), fr(2, 1)).unwrap();
    assert_eq!((r.num, r.den), (2, 1));
    let r = clamp_frac(fr(-1, 2), fr(0, 1), fr(2, 1)).unwrap();
    assert_eq!((r.num, r.den), (0, 1));
    let r = clamp_frac(fr(1, 2), fr(0, 1), fr(2, 1)).unwrap();
    assert_eq!((r.num, r.den), (1, 2));
    // inverted range
    let r = clamp_frac(fr(1, 2), fr(3, 1), fr(2, 1)).unwrap();
    assert_eq!((r.num, r.den), (3, 1));
}

#[test]
fn statefulness_regression() {
    // solving a finite-population model twice without resetting `n`
    // consumes the population and yields a different second vector;
    // this mirrors the model's documented statefulness and is not a bug
    let mut qtm = Qtm::new(1, 1, fr(3, 1), fr(2, 1), fr(0, 1), 5).unwrap();
    let v1 = qtm.calc_final_states().unwrap();
    assert_eq!(qtm.n, 3);
    let v2 = qtm.calc_final_states().unwrap();
    assert_eq!(qtm.n, 1);
    let differs = v1
        .iter()
        .zip(v2.iter())
        .any(|(a, b)| (to_f64(a) - to_f64(b)).abs() > 1e-9);
    assert!(differs);
}

#[test]
fn population_counter_freezes() {
    // the counter drops by one per arrival cell and freezes at -1
    let mut qtm = Qtm::new(2, 1, fr(2, 1), fr(1, 1), fr(0, 1), 1).unwrap();
    qtm.calc_final_states().unwrap();
    assert_eq!(qtm.n, -1);
    // an infinite-population model keeps the sentinel
    let mut inf = reference_model();
    inf.calc_final_states().unwrap();
    assert_eq!(inf.n, -1);
}

#[test]
fn zero_population_puts_all_mass_at_rest() {
    let mut qtm = Qtm::new(1, 0, fr(4, 1), fr(2, 1), fr(0, 1), 0).unwrap();
    let fs = qtm.calc_final_states().unwrap();
    assert_eq!(fs.len(), 2);
    assert_eq!(fs[0].num, fs[0].den);
    assert_eq!(fs[1].num, 0);
}

#[test]
fn singular_matrix_error() {
    // all rates zero: the augmented matrix has two identical rows
    let mut qtm = Qtm::new(1, 0, fr(0, 1), fr(0, 1), fr(0, 1), -1).unwrap();
    let e = qtm.calc_final_states().unwrap_err();
    assert_eq!(e, QtmError::SingularMatrix);
    // a failed solve leaves no stale vector behind
    assert!(qtm.final_states().is_empty());
}

#[test]
fn invalid_configuration_error() {
    let e = Qtm::new(0, 1, fr(1, 1), fr(1, 1), fr(0, 1), -1).unwrap_err();
    assert_eq!(e, QtmError::InvalidConfiguration);
    let e = Qtm::new(2, 1, fr(-1, 1), fr(1, 1), fr(0, 1), -1).unwrap_err();
    assert_eq!(e, QtmError::InvalidConfiguration);
    let e = Qtm::new(2, 1, fr(1, 1), fr(1, 1), fr(0, 1), -2).unwrap_err();
    assert_eq!(e, QtmError::InvalidConfiguration);
}

#[test]
fn uninitialized_state_error() {
    let qtm = reference_model();
    assert!(qtm.final_states().is_empty());
    assert_eq!(QtmData::calc_avg_queue(&qtm).unwrap_err(), QtmError::UninitializedState);
    assert_eq!(QtmData::calc_ete(&qtm).unwrap_err(), QtmError::UninitializedState);
    assert_eq!(
        QtmData::calc_avg_time_queue(&qtm).unwrap_err(),
        QtmError::UninitializedState
    );
    assert_eq!(
        QtmData::calc_perc_served_req(&qtm).unwrap_err(),
        QtmError::UninitializedState
    );
    assert_eq!(
        QtmData::calc_avg_count_served_req(&qtm).unwrap_err(),
        QtmError::UninitializedState
    );
    assert_eq!(
        QtmData::calc_avg_count_req(&qtm).unwrap_err(),
        QtmError::UninitializedState
    );
}

#[test]
fn numeric_overflow_error() {
    // an arrival rate near the i128 limit overflows the exact solve
    let huge = fr(i128::MAX / 2, 1);
    let mut qtm = Qtm::new(1, 0, huge, fr(1, 1), fr(0, 1), -1).unwrap();
    let e = qtm.calc_final_states().unwrap_err();
    assert_eq!(e, QtmError::NumericOverflow);
}

#[test]
fn abandonment_rate_enters_the_model() {
    // the same configuration with and without reneging must differ
    let mut with_nu = Qtm::new(2, 2, fr(6, 1), fr(1, 1), fr(3, 1), -1).unwrap();
    let mut without_nu = Qtm::new(2, 2, fr(6, 1), fr(1, 1), fr(0, 1), -1).unwrap();
    let v1 = with_nu.calc_final_states().unwrap();
    let v2 = without_nu.calc_final_states().unwrap();
    let differs = v1
        .iter()
        .zip(v2.iter())
        .any(|(a, b)| (to_f64(a) - to_f64(b)).abs() > 1e-9);
    assert!(differs);
}

#[test]
fn served_count_below_total() {
    // the in-service weight saturates, the occupancy weight does not
    let mut qtm = Qtm::new(1, 2, fr(3, 1), fr(1, 1), fr(0, 1), -1).unwrap();
    qtm.calc_final_states().unwrap();
    let served = to_f64(&QtmData::calc_avg_count_served_req(&qtm).unwrap());
    let total = to_f64(&QtmData::calc_avg_count_req(&qtm).unwrap());
    assert!(served < total);
}
