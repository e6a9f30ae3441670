use pathtracer::perlin::Perlin;

fn is_permutation(table: &[usize], n: usize) -> bool {
    let mut sorted = table.to_vec();
    sorted.sort();
    sorted == (0..n).collect::<Vec<usize>>()
}

#[test]
fn tables_are_permutations() {
    fastrand::seed(1);
    for n in [0usize, 1, 2, 3, 16, 100, 256] {
        let lattice = Perlin::new(n);
        assert_eq!(lattice.point_count, n);
        assert!(is_permutation(&lattice.perm_x, n));
        assert!(is_permutation(&lattice.perm_y, n));
        assert!(is_permutation(&lattice.perm_z, n));
    }
}

#[test]
fn tables_are_shuffled() {
    fastrand::seed(42);
    let lattice = Perlin::new(256);
    let rising: Vec<usize> = (0..256).collect();
    assert_ne!(lattice.perm_x, rising);
    assert_ne!(lattice.perm_y, rising);
    assert_ne!(lattice.perm_z, rising);
    assert_ne!(lattice.perm_x, lattice.perm_y);
    assert_ne!(lattice.perm_y, lattice.perm_z);
}

#[test]
fn same_seed_same_tables() {
    fastrand::seed(99);
    let a = Perlin::new(64);
    fastrand::seed(99);
    let b = Perlin::new(64);
    assert_eq!(a.perm_x, b.perm_x);
    assert_eq!(a.perm_y, b.perm_y);
    assert_eq!(a.perm_z, b.perm_z);
}

fn fixed() -> Perlin {
    Perlin {
        point_count: 4,
        perm_x: vec![2, 0, 3, 1],
        perm_y: vec![1, 3, 0, 2],
        perm_z: vec![3, 2, 1, 0],
    }
}

#[test]
fn gradient_combines_the_three_tables() {
    let lattice = fixed();
    assert_eq!(lattice.gradient_index(0, 0, 0), 2 ^ 1 ^ 3);
    assert_eq!(lattice.gradient_index(1, 2, 3), 0 ^ 0 ^ 0);
    assert_eq!(lattice.gradient_index(3, 1, 2), 1 ^ 3 ^ 1);
}

#[test]
fn coordinates_wrap_around_the_tables() {
    let lattice = fixed();
    assert_eq!(lattice.gradient_index(4, 8, 12), lattice.gradient_index(0, 0, 0));
    assert_eq!(lattice.gradient_index(5, 6, 7), lattice.gradient_index(1, 2, 3));
    // below zero the tables are read from their far end
    assert_eq!(lattice.gradient_index(-1, -1, -1), 1 ^ 2 ^ 0);
    assert_eq!(lattice.gradient_index(-4, -3, -2), lattice.gradient_index(0, 1, 2));
    assert_eq!(
        lattice.gradient_index(isize::MIN, isize::MAX, 0),
        lattice.gradient_index(0, 3, 0)
    );
}

#[test]
fn gradient_stays_below_a_power_of_two() {
    fastrand::seed(8);
    let lattice = Perlin::new(256);
    for _ in 0..2000 {
        let i = fastrand::isize(-1000..1000);
        let j = fastrand::isize(-1000..1000);
        let k = fastrand::isize(-1000..1000);
        assert!(lattice.gradient_index(i, j, k) < 256);
    }
}

#[test]
fn single_gradient_lattice() {
    let lattice = Perlin::new(1);
    assert_eq!(lattice.gradient_index(17, -4, 0), 0);
}

#[test]
fn gradient_may_leave_a_count_that_is_no_power_of_two() {
    let lattice = Perlin {
        point_count: 3,
        perm_x: vec![1, 0, 2],
        perm_y: vec![2, 1, 0],
        perm_z: vec![0, 1, 2],
    };
    // slots 0, 0 and 0: 1 ^ 2 ^ 0
    assert_eq!(lattice.gradient_index(0, 0, 0), 3);
}
