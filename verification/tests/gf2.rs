use lib::gf2::{count_invertible_gf2_bruteforce, gl_order, is_invertible_gf2, solve_gf2};

#[test]
fn the_invertible_count_is_the_general_linear_group() {
    for n in 1..=4u32 {
        let brute = count_invertible_gf2_bruteforce(n);
        let group = gl_order(n);
        assert_eq!(brute, group, "n={n}: brute-force invertible count must equal |GL(n,2)| = Π(2ⁿ−2ⁱ)");
    }
    for n in 1..=10u32 {
        let full = 1u128 << n;
        let stepwise: u128 = (0..n).map(|i| full - (1u128 << i)).product();
        assert_eq!(gl_order(n), stepwise, "|GL(n,2)| is the step-by-step basis enumeration");
    }
    assert_eq!(gl_order(2), 6);
    assert_eq!(gl_order(3), 168);
}

fn satisfies(row: u64, rhs: bool, x: u64) -> bool {
    (row & x).count_ones() % 2 == rhs as u32
}
fn pack(x: &[bool]) -> u64 {
    x.iter().enumerate().fold(0u64, |a, (i, &b)| a | ((b as u64) << i))
}

#[test]
fn the_kernel_break_recovers_every_solution() {
    let n = 12usize;
    let mut rng = 0xCAFE_F00D_1234_5678u64;
    let mut next = || {
        rng = rng.wrapping_add(0xD1B5_4A32_D192_ED03);
        let mut z = rng;
        z = (z ^ (z >> 30)).wrapping_mul(0xBF58476D1CE4E5B9);
        z = (z ^ (z >> 27)).wrapping_mul(0x94D049BB133111EB);
        z ^ (z >> 31)
    };
    let mask = (1u64 << n) - 1;
    let mut saw_consistent = 0usize;
    let mut saw_inconsistent = 0usize;
    let mut saw_multiple = 0usize;
    for _ in 0..400 {
        let m = 3 + (next() as usize % 12);
        let rows: Vec<u64> = (0..m).map(|_| next() & mask).collect();
        let rhs: Vec<bool> = (0..m).map(|_| next() & 1 == 0).collect();
        let brute: std::collections::BTreeSet<u64> = (0u64..(1u64 << n))
            .filter(|&x| rows.iter().zip(&rhs).all(|(&r, &b)| satisfies(r, b, x)))
            .collect();
        match solve_gf2(n, &rows, &rhs) {
            None => {
                assert!(brute.is_empty(), "solve_gf2 said inconsistent but solutions exist");
                saw_inconsistent += 1;
            }
            Some(space) => {
                saw_consistent += 1;
                if space.kernel_basis.len() > 0 {
                    saw_multiple += 1;
                }
                let gen: std::collections::BTreeSet<u64> = space.enumerate().iter().map(|x| pack(x)).collect();
                for &x in &gen {
                    assert!(rows.iter().zip(&rhs).all(|(&r, &b)| satisfies(r, b, x)), "generated non-solution");
                }
                assert_eq!(gen, brute, "kernel orbit must equal the full solution set");
                assert_eq!(space.count(), brute.len() as u128, "count = #solutions");
                assert_eq!(space.count(), 1u128 << space.kernel_basis.len(), "count = 2^(dim kernel)");
            }
        }
    }
    assert!(saw_consistent > 20 && saw_inconsistent > 20 && saw_multiple > 20,
        "fuzz must exercise consistent ({saw_consistent}), inconsistent ({saw_inconsistent}), and multi-solution ({saw_multiple}) systems");
}

#[test]
fn invertibility_matches_a_unique_solution() {
    // The identity is invertible, a repeated row is not.
    assert!(is_invertible_gf2(3, &[0b001, 0b010, 0b100]));
    assert!(!is_invertible_gf2(3, &[0b011, 0b011, 0b100]));
    let space = solve_gf2(3, &[0b001, 0b010, 0b100], &[true, false, true]).expect("consistent");
    assert_eq!(space.kernel_basis.len(), 0);
    assert_eq!(space.particular, vec![true, false, true]);
    assert_eq!(space.count(), 1);
    // x0 ⊕ x1 = 1 and x0 ⊕ x1 = 0 cannot both hold.
    assert!(solve_gf2(2, &[0b11, 0b11], &[true, false]).is_none());
}

// The Euler partial product Π_{j=1}^n (1 − 2⁻ʲ), the invertibility density of n×n GF(2) matrices.
fn euler_density(n: u32) -> f64 {
    (1..=n).map(|j| 1.0 - 0.5f64.powi(j as i32)).product()
}

#[test]
fn random_gf2_matrices_are_invertible_at_the_euler_rate() {
    let n = 6u32;
    let trials = 4000u64;
    let mut rng = 0x1234_5678_9ABC_DEF0u64;
    let mut next = || {
        rng = rng.wrapping_add(0xD1B5_4A32_D192_ED03);
        let mut z = rng;
        z = (z ^ (z >> 30)).wrapping_mul(0xBF58476D1CE4E5B9);
        z = (z ^ (z >> 27)).wrapping_mul(0x94D049BB133111EB);
        z ^ (z >> 31)
    };
    let mask = (1u64 << n) - 1;
    let invertible = (0..trials)
        .filter(|_| {
            let rows: Vec<u64> = (0..n).map(|_| next() & mask).collect();
            is_invertible_gf2(n, &rows)
        })
        .count();
    let rate = invertible as f64 / trials as f64;
    let expected = euler_density(n);
    assert!((rate - expected).abs() < 0.03, "empirical invertibility rate {rate:.4} ≈ Π(1−2⁻ʲ) = {expected:.4}");
}

#[test]
fn invertible_system_has_the_unique_rigid_witness() {
    let n = 8usize;
    let mut rng = 0x0BADC0DE_5EED_1234u64;
    let mut next = || {
        rng = rng.wrapping_add(0xD1B5_4A32_D192_ED03);
        let mut z = rng;
        z = (z ^ (z >> 30)).wrapping_mul(0xBF58476D1CE4E5B9);
        z = (z ^ (z >> 27)).wrapping_mul(0x94D049BB133111EB);
        z ^ (z >> 31)
    };
    let mask = (1u64 << n) - 1;
    let mut unique = 0usize;
    let mut total = 0usize;
    for _ in 0..2000 {
        let rows: Vec<u64> = (0..n).map(|_| next() & mask).collect();
        let rhs: Vec<bool> = (0..n).map(|_| next() & 1 == 0).collect();
        if is_invertible_gf2(n as u32, &rows) {
            let space = solve_gf2(n, &rows, &rhs).expect("invertible ⟹ consistent");
            assert_eq!(space.kernel_basis.len(), 0, "invertible ⟹ trivial kernel");
            assert_eq!(space.count(), 1, "invertible ⟹ a unique, rigid witness");
            unique += 1;
        } else {
            match solve_gf2(n, &rows, &rhs) {
                None => {}
                Some(space) => {
                    assert!(!space.kernel_basis.is_empty(), "consistent singular ⟹ a symmetry to break");
                    assert!(space.count() >= 2, "consistent singular ⟹ multiple solutions");
                }
            }
        }
        total += 1;
    }
    let rate = unique as f64 / total as f64;
    assert!((rate - euler_density(n as u32)).abs() < 0.03,
        "unique-witness rate {rate:.4} ≈ φ(½) = {:.4}", euler_density(n as u32));
}

#[test]
fn one_equation_frees_the_last_column() {
    let sp = solve_gf2(2, &[0b11], &[true]).expect("consistent");
    assert_eq!(sp.num_vars, 2);
    assert_eq!(sp.particular, vec![true, false]);
    assert_eq!(sp.kernel_basis, vec![vec![true, true]]);
}
