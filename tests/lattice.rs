use ising2d::lattice::{sweep_trial, Ising2D, LatticeError, ACTIVATION_SCALE};
use rand::rngs::StdRng;
use rand::SeedableRng;

fn spins_of(l: &Ising2D) -> Vec<Vec<i8>> {
    let n = l.size();
    (0..n).map(|r| (0..n).map(|c| l.spin(r, c)).collect()).collect()
}

/// Energy in units of J, summed over every bond once from scratch.
fn energy_from_scratch(g: &Vec<Vec<i8>>) -> i64 {
    let n = g.len();
    let mut bonds: i64 = 0;
    for r in 0..n {
        for c in 0..n {
            let s = g[r][c] as i64;
            bonds += s * (g[r][(c + 1) % n] as i64 + g[(r + 1) % n][c] as i64);
        }
    }
    -bonds
}

fn magnetization_from_scratch(g: &Vec<Vec<i8>>) -> i64 {
    g.iter().flatten().map(|&s| s as i64).sum()
}

fn assert_consistent(l: &Ising2D) {
    let g = spins_of(l);
    assert_eq!(l.get_energy(), energy_from_scratch(&g));
    let (m, sites) = l.get_magnetic_momentum();
    assert_eq!(m, magnetization_from_scratch(&g));
    assert_eq!(sites, (l.size() * l.size()) as u64);
    assert!(m.unsigned_abs() <= sites);
}

#[test]
fn ground_state_all_up() {
    let l = Ising2D::new_uniform(4, 0, true).unwrap();
    assert_eq!(l.get_energy(), -32);
    assert_eq!(l.get_magnetic_momentum(), (16, 16));
    let (m, sites) = l.get_magnetic_momentum();
    assert_eq!(m as f64 / sites as f64, 1.0);
    assert_consistent(&l);
}

#[test]
fn ground_state_all_down() {
    let l = Ising2D::new_uniform(3, 0, false).unwrap();
    assert_eq!(l.get_energy(), -18);
    assert_eq!(l.get_magnetic_momentum(), (-9, 9));
}

#[test]
fn empty_lattice_is_rejected() {
    let mut rng = StdRng::seed_from_u64(1);
    assert_eq!(Ising2D::new(0, 0, &mut rng).unwrap_err(), LatticeError::EmptyLattice);
    assert_eq!(Ising2D::new_uniform(0, 0, true).unwrap_err(), LatticeError::EmptyLattice);
    assert_eq!(sweep_trial(0, 0, &mut rng).unwrap_err(), LatticeError::EmptyLattice);
}

#[test]
fn random_lattice_is_consistent_and_mixed() {
    let mut rng = StdRng::seed_from_u64(7);
    let l = Ising2D::new(8, 0, &mut rng).unwrap();
    assert_consistent(&l);
    let g = spins_of(&l);
    assert!(g.iter().flatten().all(|&s| s == 1 || s == -1));
    assert!(g.iter().flatten().any(|&s| s == 1));
    assert!(g.iter().flatten().any(|&s| s == -1));
}

#[test]
fn zero_activation_flips_only_the_seed() {
    let mut rng = StdRng::seed_from_u64(42);
    let mut l = Ising2D::new(4, 0, &mut rng).unwrap();
    let before = spins_of(&l);
    l.flip_wolff(1, 2, &mut rng);
    let after = spins_of(&l);
    for r in 0..4 {
        for c in 0..4 {
            if (r, c) == (1, 2) {
                assert_eq!(after[r][c], -before[r][c]);
            } else {
                assert_eq!(after[r][c], before[r][c]);
            }
        }
    }
    assert_consistent(&l);
}

#[test]
fn seed_is_taken_modulo_the_side() {
    let mut rng = StdRng::seed_from_u64(3);
    let mut l = Ising2D::new_uniform(4, 0, true).unwrap();
    l.flip_wolff(5, 6, &mut rng);
    assert_eq!(l.spin(1, 2), -1);
    assert_eq!(l.get_magnetic_momentum(), (14, 16));
    // one reversed spin breaks its four bonds: -32 + 4 * 2
    assert_eq!(l.get_energy(), -24);
}

#[test]
fn full_activation_flips_whole_uniform_lattice() {
    let mut rng = StdRng::seed_from_u64(5);
    for size in 1..7 {
        let mut l = Ising2D::new_uniform(size, ACTIVATION_SCALE, true).unwrap();
        l.flip_wolff(0, size / 2, &mut rng);
        assert!(spins_of(&l).iter().flatten().all(|&s| s == -1));
        let n = (size * size) as i64;
        assert_eq!(l.get_magnetic_momentum(), (-n, n as u64));
        assert_eq!(l.get_energy(), -2 * n);
    }
}

#[test]
fn energy_and_magnetization_stay_consistent() {
    let mut rng = StdRng::seed_from_u64(11);
    for size in 1..9 {
        for threshold in [0, ACTIVATION_SCALE / 3, ACTIVATION_SCALE / 2, ACTIVATION_SCALE] {
            let mut l = Ising2D::new(size, threshold, &mut rng).unwrap();
            assert_consistent(&l);
            for step in 0..20 {
                l.flip_wolff(step * 7, step * 3, &mut rng);
                assert_consistent(&l);
                l.simulate_wolff(3, &mut rng);
                assert_consistent(&l);
            }
        }
    }
}

#[test]
fn single_cell_energy_is_constant() {
    let mut rng = StdRng::seed_from_u64(13);
    let mut l = Ising2D::new_uniform(1, ACTIVATION_SCALE, true).unwrap();
    for _ in 0..5 {
        l.flip_wolff(0, 0, &mut rng);
        assert_eq!(l.get_energy(), -2);
    }
    assert_eq!(l.get_magnetic_momentum(), (-1, 1));
}

#[test]
fn infinite_temperature_scenario() {
    // size 4, beta 0: the activation threshold is zero
    let mut rng = StdRng::seed_from_u64(17);
    let mut l = Ising2D::new(4, 0, &mut rng).unwrap();
    for _ in 0..5 {
        let g = spins_of(&l);
        assert_eq!(l.get_energy(), energy_from_scratch(&g));
        let (m, sites) = l.get_magnetic_momentum();
        assert_eq!(m as f64 / sites as f64, magnetization_from_scratch(&g) as f64 / 16.0);
        let before = g;
        l.simulate_wolff(1, &mut rng);
        let after = spins_of(&l);
        let changed = (0..4)
            .flat_map(|r| (0..4).map(move |c| (r, c)))
            .filter(|&(r, c)| before[r][c] != after[r][c])
            .count();
        assert_eq!(changed, 1);
    }
}

#[test]
fn sweep_trial_reports_a_fraction_of_the_sites() {
    let mut rng = StdRng::seed_from_u64(19);
    let (m, sites) = sweep_trial(6, ACTIVATION_SCALE / 2, &mut rng).unwrap();
    assert_eq!(sites, 36);
    assert!(m <= 36);
    assert_eq!(m % 2, 0);
}

#[test]
fn full_activation_cluster_has_no_aligned_neighbour() {
    let mut rng = StdRng::seed_from_u64(23);
    for trial in 0..10 {
        let mut l = Ising2D::new(6, ACTIVATION_SCALE, &mut rng).unwrap();
        let before = spins_of(&l);
        let (a, b) = (trial % 6, (trial * 5) % 6);
        let v = before[a][b];
        l.flip_wolff(a, b, &mut rng);
        let after = spins_of(&l);
        assert_eq!(after[a][b], -v);
        for r in 0..6 {
            for c in 0..6 {
                if after[r][c] != before[r][c] {
                    assert_eq!(before[r][c], v);
                    for (qr, qc) in [(r, (c + 1) % 6), (r, (c + 5) % 6), ((r + 1) % 6, c), ((r + 5) % 6, c)] {
                        assert_ne!(after[qr][qc], v);
                    }
                }
            }
        }
        assert_consistent(&l);
    }
}

#[test]
fn zero_steps_leave_the_lattice_unchanged() {
    let mut rng = StdRng::seed_from_u64(29);
    let mut l = Ising2D::new(5, ACTIVATION_SCALE / 2, &mut rng).unwrap();
    let before = spins_of(&l);
    let energy = l.get_energy();
    l.simulate_wolff(0, &mut rng);
    assert_eq!(spins_of(&l), before);
    assert_eq!(l.get_energy(), energy);
}
