use percolation::{
    average_trial, burn_dfs, check_run, check_threshold, cluster_sizes, distribution_trial,
    find_root, generate_lattice, hoshen_kopelman, largest_cluster, neighbors, reset_lattice,
    run_average, run_distribution, site_from_draw, sweep_thresholds, tally_sizes, AverageTally,
    ConfigError, Mode, TrialOutcome, EMPTY, FULL_THRESHOLD, OCCUPIED, VISITED,
};
use rand::rngs::StdRng;
use rand::SeedableRng;

fn lattice_with(size: usize, sites: &[usize]) -> Vec<usize> {
    let mut lat = vec![EMPTY; size * size];
    for &s in sites {
        lat[s] = OCCUPIED;
    }
    lat
}

fn sorted_sizes(lattice: &[usize], size: usize) -> Vec<usize> {
    let mut lat = lattice.to_vec();
    let table = hoshen_kopelman(&mut lat, size);
    let mut sizes = cluster_sizes(&table);
    sizes.sort();
    sizes
}

fn spans(lattice: &[usize], size: usize) -> bool {
    let mut lat = lattice.to_vec();
    burn_dfs(&mut lat, size)
}

fn random_lattice(seed: u64, size: usize, p_percent: u64) -> Vec<usize> {
    let mut rng = StdRng::seed_from_u64(seed);
    generate_lattice(&mut rng, size, FULL_THRESHOLD / 100 * p_percent)
}

#[test]
fn full_three_by_three_spans_as_one_cluster() {
    let lat = lattice_with(3, &[0, 1, 2, 3, 4, 5, 6, 7, 8]);
    assert!(spans(&lat, 3));
    assert_eq!(sorted_sizes(&lat, 3), vec![9]);
}

#[test]
fn top_row_only_does_not_span() {
    let lat = lattice_with(3, &[0, 1, 2]);
    assert!(!spans(&lat, 3));
    assert_eq!(sorted_sizes(&lat, 3), vec![3]);
}

#[test]
fn diagonal_sites_are_separate_clusters() {
    let lat = lattice_with(2, &[0, 3]);
    assert_eq!(sorted_sizes(&lat, 2), vec![1, 1]);
    assert!(!spans(&lat, 2));
}

#[test]
fn single_site_lattice() {
    let lat = lattice_with(1, &[0]);
    assert!(spans(&lat, 1));
    assert_eq!(sorted_sizes(&lat, 1), vec![1]);
    let empty = lattice_with(1, &[]);
    assert!(!spans(&empty, 1));
    assert_eq!(sorted_sizes(&empty, 1), Vec::<usize>::new());
}

#[test]
fn right_column_spans() {
    let lat = lattice_with(3, &[2, 5, 8]);
    assert!(spans(&lat, 3));
    assert_eq!(sorted_sizes(&lat, 3), vec![3]);
}

#[test]
fn winding_path_spans() {
    let lat = lattice_with(3, &[1, 4, 3, 6]);
    assert!(spans(&lat, 3));
    let no_wrap = lattice_with(3, &[2, 3, 6]);
    assert!(!spans(&no_wrap, 3));
    assert_eq!(sorted_sizes(&no_wrap, 3), vec![1, 2]);
}

#[test]
fn burning_marks_only_reached_sites() {
    let mut lat = lattice_with(3, &[0, 3, 8]);
    assert!(!burn_dfs(&mut lat, 3));
    assert_eq!(lat, vec![VISITED, EMPTY, EMPTY, VISITED, EMPTY, EMPTY, EMPTY, EMPTY, OCCUPIED]);
}

#[test]
fn merge_folds_the_newer_cluster_into_the_older() {
    let mut lat = lattice_with(3, &[0, 2, 3, 4, 5]);
    let table = hoshen_kopelman(&mut lat, 3);
    assert_eq!(table, vec![0, 0, 5, -2]);
    assert_eq!(lat, vec![2, 0, 3, 2, 2, 2, 0, 0, 0]);
    assert_eq!(find_root(&table, 3), 2);
    assert_eq!(find_root(&table, 2), 2);
    assert_eq!(cluster_sizes(&table), vec![5]);
    assert_eq!(largest_cluster(&table), 5);
}

#[test]
fn labelling_checkerboard() {
    let lat = lattice_with(3, &[0, 2, 4, 6, 8]);
    let mut l = lat.clone();
    let table = hoshen_kopelman(&mut l, 3);
    assert_eq!(table, vec![0, 0, 1, 1, 1, 1, 1]);
    assert_eq!(largest_cluster(&table), 1);
    assert!(!spans(&lat, 3));
}

#[test]
fn neighbours_of_every_position_class() {
    let sorted = |i: usize, n: usize| {
        let mut v = neighbors(i, n);
        v.sort();
        v
    };
    assert_eq!(sorted(0, 3), vec![1, 3]);
    assert_eq!(sorted(2, 3), vec![1, 5]);
    assert_eq!(sorted(1, 3), vec![0, 2, 4]);
    assert_eq!(sorted(3, 3), vec![0, 4, 6]);
    assert_eq!(sorted(5, 3), vec![2, 4, 8]);
    assert_eq!(sorted(4, 3), vec![1, 3, 5, 7]);
    assert_eq!(sorted(6, 3), vec![3, 7]);
    assert_eq!(sorted(8, 3), vec![5, 7]);
    assert_eq!(sorted(7, 3), vec![4, 6, 8]);
    assert_eq!(sorted(0, 1), Vec::<usize>::new());
}

#[test]
fn reset_turns_visited_back_into_occupied() {
    let mut lat = vec![EMPTY, VISITED, OCCUPIED, VISITED, 7];
    reset_lattice(&mut lat);
    assert_eq!(lat, vec![EMPTY, OCCUPIED, OCCUPIED, OCCUPIED, 7]);
}

#[test]
fn cluster_sizes_add_up_to_occupied_sites() {
    for seed in 0..20u64 {
        let lat = random_lattice(seed, 12, 55);
        let occupied = lat.iter().filter(|&&s| s == OCCUPIED).count();
        let total: usize = sorted_sizes(&lat, 12).iter().sum();
        assert_eq!(total, occupied);
    }
}

#[test]
fn spanning_agrees_with_clusters() {
    for seed in 0..30u64 {
        let size = 8;
        let lat = random_lattice(seed, size, 60);
        let mut labels = lat.clone();
        let table = hoshen_kopelman(&mut labels, size);
        let root_of = |i: usize| find_root(&table, labels[i]);
        let mut crossing = false;
        for a in 0..size {
            for b in size * size - size..size * size {
                if labels[a] != EMPTY && labels[b] != EMPTY && root_of(a) == root_of(b) {
                    crossing = true;
                }
            }
        }
        assert_eq!(spans(&lat, size), crossing);
    }
}

#[test]
fn analyses_are_deterministic() {
    let lat = random_lattice(7, 10, 50);
    assert_eq!(spans(&lat, 10), spans(&lat, 10));
    let mut a = lat.clone();
    let mut b = lat.clone();
    assert_eq!(hoshen_kopelman(&mut a, 10), hoshen_kopelman(&mut b, 10));
    assert_eq!(a, b);
}

#[test]
fn reset_after_burning_gives_same_clusters() {
    for seed in 0..10u64 {
        let lat = random_lattice(seed, 9, 60);
        let mut burnt = lat.clone();
        burn_dfs(&mut burnt, 9);
        reset_lattice(&mut burnt);
        assert_eq!(burnt, lat);
        assert_eq!(sorted_sizes(&burnt, 9), sorted_sizes(&lat, 9));
    }
}

#[test]
fn spanning_grows_with_probability() {
    let mut rng = StdRng::seed_from_u64(11);
    let mut last = 0u64;
    for p in [10u64, 40, 60, 90] {
        let tally = run_average(&mut rng, 16, 200, FULL_THRESHOLD / 100 * p);
        assert!(tally.spanning + 20 >= last);
        last = tally.spanning;
    }
    assert!(last > 180);
}

#[test]
fn extreme_probabilities() {
    let mut rng = StdRng::seed_from_u64(3);
    let none = run_average(&mut rng, 5, 10, 0);
    assert_eq!((none.trials, none.spanning, none.size_sum), (10, 0, 0));
    let all = run_average(&mut rng, 5, 10, FULL_THRESHOLD);
    assert_eq!((all.trials, all.spanning, all.size_sum), (10, 10, 250));
    let dist = run_distribution(&mut rng, 4, 6, FULL_THRESHOLD);
    let mut expected = vec![0u64; 17];
    expected[16] = 6;
    assert_eq!(dist, expected);
    let empty = run_distribution(&mut rng, 4, 6, 0);
    assert_eq!(empty, vec![0u64; 17]);
}

#[test]
fn site_state_from_draw() {
    assert_eq!(site_from_draw(5, 6), OCCUPIED);
    assert_eq!(site_from_draw(6, 6), EMPTY);
    assert_eq!(site_from_draw(u32::MAX, FULL_THRESHOLD), OCCUPIED);
    assert_eq!(site_from_draw(0, 0), EMPTY);
}

#[test]
fn generated_lattice_shape() {
    let mut rng = StdRng::seed_from_u64(5);
    let lat = generate_lattice(&mut rng, 6, FULL_THRESHOLD / 2);
    assert_eq!(lat.len(), 36);
    assert!(lat.iter().all(|&s| s == EMPTY || s == OCCUPIED));
    assert!(generate_lattice(&mut rng, 4, 0).iter().all(|&s| s == EMPTY));
    assert!(generate_lattice(&mut rng, 4, FULL_THRESHOLD).iter().all(|&s| s == OCCUPIED));
}

#[test]
fn average_trial_outcome() {
    let mut lat = lattice_with(3, &[1, 4, 7, 0, 8]);
    let outcome = average_trial(&mut lat, 3);
    assert!(outcome.spanned);
    assert_eq!(outcome.largest, 5);
    let mut tally = AverageTally::new();
    tally.record(&outcome);
    tally.record(&TrialOutcome { spanned: false, largest: 2 });
    assert_eq!((tally.trials, tally.spanning, tally.size_sum), (2, 1, 7));
}

#[test]
fn distribution_of_one_lattice() {
    let mut lat = lattice_with(3, &[0, 2, 3, 8]);
    let mut sizes = distribution_trial(&mut lat, 3);
    sizes.sort();
    assert_eq!(sizes, vec![1, 1, 2]);
    let mut dist = vec![0u64; 10];
    tally_sizes(&mut dist, &sizes);
    tally_sizes(&mut dist, &vec![2]);
    assert_eq!(dist, vec![0, 2, 2, 0, 0, 0, 0, 0, 0, 0]);
}

#[test]
fn run_checks() {
    assert_eq!(check_run(0, 5), Err(ConfigError::ZeroLatticeSize));
    assert_eq!(check_run(50000, 5), Err(ConfigError::LatticeTooLarge));
    assert_eq!(check_run(10, 0), Err(ConfigError::ZeroTrials));
    assert_eq!(check_run(10, 5), Ok(()));
    assert_eq!(check_threshold(FULL_THRESHOLD), Ok(()));
    assert_eq!(check_threshold(FULL_THRESHOLD + 1), Err(ConfigError::ProbabilityOutOfRange));
    assert_ne!(Mode::Ave, Mode::Dist);
}

#[test]
fn sweep_steps() {
    assert_eq!(sweep_thresholds(10, 40, 10), Ok(vec![10, 20, 30, 40]));
    assert_eq!(sweep_thresholds(10, 45, 10), Ok(vec![10, 20, 30, 40]));
    assert_eq!(sweep_thresholds(7, 7, 3), Ok(vec![7]));
    assert_eq!(sweep_thresholds(0, 10, 0), Err(ConfigError::ZeroStep));
    assert_eq!(sweep_thresholds(20, 10, 5), Err(ConfigError::MinAboveMax));
    assert_eq!(sweep_thresholds(0, FULL_THRESHOLD + 1, 5), Err(ConfigError::ProbabilityOutOfRange));
}

fn flood_fill_sizes(lattice: &[usize], size: usize) -> Vec<usize> {
    let mut seen = vec![false; lattice.len()];
    let mut sizes = Vec::new();
    for start in 0..lattice.len() {
        if lattice[start] == EMPTY || seen[start] {
            continue;
        }
        seen[start] = true;
        let mut stack = vec![start];
        let mut count = 0;
        while let Some(i) = stack.pop() {
            count += 1;
            let (r, c) = (i / size, i % size);
            let mut next = Vec::new();
            if r > 0 {
                next.push(i - size);
            }
            if r + 1 < size {
                next.push(i + size);
            }
            if c > 0 {
                next.push(i - 1);
            }
            if c + 1 < size {
                next.push(i + 1);
            }
            for j in next {
                if lattice[j] != EMPTY && !seen[j] {
                    seen[j] = true;
                    stack.push(j);
                }
            }
        }
        sizes.push(count);
    }
    sizes.sort();
    sizes
}

#[test]
fn labelling_matches_flood_fill() {
    for seed in 0..40u64 {
        for &(size, p) in &[(7usize, 45u64), (10, 59), (13, 70), (4, 30)] {
            let lat = random_lattice(seed, size, p);
            assert_eq!(sorted_sizes(&lat, size), flood_fill_sizes(&lat, size));
        }
    }
}

#[test]
fn long_redirection_chains_are_followed() {
    // Three columns and a bottom row, then a full row that joins them all.
    let size = 5;
    let mut sites = vec![0, 2, 4, 5, 7, 9, 10, 12, 14];
    sites.extend(20..25);
    let lat = lattice_with(size, &sites);
    assert_eq!(sorted_sizes(&lat, size), vec![3, 3, 3, 5]);
    let mut full_bottom = sites.clone();
    full_bottom.extend([15, 16, 17, 18, 19]);
    let lat2 = lattice_with(size, &full_bottom);
    assert_eq!(sorted_sizes(&lat2, size), vec![19]);
    assert!(spans(&lat2, size));
    assert!(!spans(&lat, size));
}
