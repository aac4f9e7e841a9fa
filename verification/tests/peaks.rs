use topological_peak_detection::{find_homologies, get_peaks};

#[test]
fn sinusoid_test() {
    let tst_vec: Vec<f32> = (0..6001)
        .map(|x| ((x as f32 / 1000_f32) * std::f32::consts::PI).sin())
        .collect();
    let check = tst_vec[10].clone();
    let homologies = find_homologies(&tst_vec).unwrap();
    let x = get_peaks(&homologies);
    assert_eq!(x.contains(&500), true);
    assert_eq!(x.contains(&2500), true);
    assert_eq!(x.contains(&4500), true);
    assert_eq!(x.contains(&6000), true);
    assert_eq!(x.len(), 4);
    assert_eq!(check, tst_vec[10]);
    println!("{:?}", homologies);
}

#[test]
fn sinusoid_double_test() {
    let tst_vec: Vec<f64> = (0..6001)
        .map(|x| ((x as f64 / 1000_f64) * std::f64::consts::PI).sin())
        .collect();
    let check = tst_vec[10].clone();
    let homologies = find_homologies(&tst_vec).unwrap();
    let x = get_peaks(&homologies);
    assert_eq!(x.contains(&500), true);
    assert_eq!(x.contains(&2500), true);
    assert_eq!(x.contains(&4500), true);
    assert_eq!(x.contains(&6000), true);
    assert_eq!(x.len(), 4);
    assert_eq!(check, tst_vec[10]);
}

#[test]
fn integer_test() {
    let tst_vec: Vec<i32> = vec![1, 2, 3, 4, 5, 4, 3, 6, 3, 1, 1, 1, 5];
    let homologies = find_homologies(&tst_vec).unwrap();
    let x = get_peaks(&homologies);
    assert_eq!(x.contains(&4), true);
    assert_eq!(x.contains(&7), true);
    assert_eq!(x.contains(&12), true);
    assert_eq!(x.len(), 3);
}

#[test]
fn failure_test() {
    let tst_vec: Vec<f32> = vec![1., 2., 3., 4., 5., std::f32::NAN, 1.0];
    let failed = match find_homologies(&tst_vec) {
        Ok(_) => false,
        Err(_) => true,
    };
    assert_eq!(failed, true);
}

#[test]
fn integer_regions_are_exact() {
    let tst_vec: Vec<i32> = vec![1, 2, 3, 4, 5, 4, 3, 6, 3, 1, 1, 1, 5];
    let homologies = find_homologies(&tst_vec).unwrap();
    let found: Vec<(usize, usize, usize)> = homologies
        .iter()
        .map(|h| (h.left_extent(), h.get_peak_idx(), h.right_extent()))
        .collect();
    assert_eq!(found, vec![(6, 7, 9), (10, 12, 12), (0, 4, 5)]);
    assert_eq!(get_peaks(&homologies), vec![7, 12, 4]);
}

#[test]
fn peaks_come_in_founding_order() {
    let tst_vec: Vec<u8> = vec![3, 1, 9, 1, 5];
    let homologies = find_homologies(&tst_vec).unwrap();
    assert_eq!(get_peaks(&homologies), vec![2, 4, 0]);
}

#[test]
fn single_value_is_one_region() {
    let homologies = find_homologies(&[42]).unwrap();
    assert_eq!(homologies.len(), 1);
    assert_eq!(homologies[0].left_extent(), 0);
    assert_eq!(homologies[0].right_extent(), 0);
    assert_eq!(homologies[0].get_peak_idx(), 0);
    assert_eq!(get_peaks(&homologies), vec![0]);
}

#[test]
fn empty_input_is_unsortable() {
    let none: Vec<i32> = Vec::new();
    assert!(find_homologies(&none).is_err());
    let none: Vec<f64> = Vec::new();
    assert!(find_homologies(&none).is_err());
}

#[test]
fn nan_is_unsortable_at_every_position() {
    for at in 0..9 {
        let mut v: Vec<f64> = vec![0.5, 2.0, -1.0, 7.25, 7.25, 3.0, 0.0, -4.5, 1.0];
        v[at] = f64::NAN;
        assert!(find_homologies(&v).is_err(), "NaN at {}", at);
    }
}

#[test]
fn nan_alone_is_unsortable() {
    assert!(find_homologies(&[f32::NAN]).is_err());
    assert!(find_homologies(&[f64::NAN]).is_err());
}

#[test]
fn infinities_are_sortable() {
    let v: Vec<f64> = vec![f64::NEG_INFINITY, 1.0, f64::INFINITY, 0.0];
    let homologies = find_homologies(&v).unwrap();
    assert_eq!(get_peaks(&homologies), vec![2]);
}

#[test]
fn regions_partition_the_positions() {
    let inputs: Vec<Vec<i32>> = vec![
        vec![1, 2, 3, 4, 5, 4, 3, 6, 3, 1, 1, 1, 5],
        vec![5, 1, 5],
        vec![0, 0, 0, 0],
        vec![9, 8, 7, 6, 5, 4],
        vec![1, 9, 1, 9, 1, 9, 1],
        vec![7],
    ];
    for v in inputs {
        let homologies = find_homologies(&v).unwrap();
        for p in 0..v.len() {
            let owners = homologies
                .iter()
                .filter(|h| h.left_extent() <= p && p <= h.right_extent())
                .count();
            assert_eq!(owners, 1, "position {} of {:?}", p, v);
        }
        for h in homologies.iter() {
            assert!(h.left_extent() <= h.get_peak_idx());
            assert!(h.get_peak_idx() <= h.right_extent());
            assert!(h.right_extent() < v.len());
        }
    }
}

#[test]
fn position_between_two_regions_goes_to_the_older() {
    // Positions 2 and 0 found a region each; position 1 touches both.
    let v: Vec<i32> = vec![5, 1, 5];
    let homologies = find_homologies(&v).unwrap();
    let found: Vec<(usize, usize, usize)> = homologies
        .iter()
        .map(|h| (h.left_extent(), h.get_peak_idx(), h.right_extent()))
        .collect();
    assert_eq!(found, vec![(1, 2, 2), (0, 0, 0)]);
    assert_eq!(get_peaks(&homologies), vec![2, 0]);
}

#[test]
fn peak_has_the_greatest_value_of_its_region() {
    let inputs: Vec<Vec<i64>> = vec![
        vec![1, 2, 3, 4, 5, 4, 3, 6, 3, 1, 1, 1, 5],
        vec![-3, -1, -2, -8, 0, 0, -1],
        vec![2, 2, 2],
    ];
    for v in inputs {
        let homologies = find_homologies(&v).unwrap();
        for h in homologies.iter() {
            for p in h.left_extent()..=h.right_extent() {
                assert!(v[p] <= v[h.get_peak_idx()]);
            }
        }
    }
}

#[test]
fn same_input_gives_same_regions() {
    let v: Vec<f32> = (0..500).map(|x| ((x as f32) * 0.37).sin()).collect();
    let first = find_homologies(&v).unwrap();
    let second = find_homologies(&v).unwrap();
    assert_eq!(first, second);
    assert_eq!(get_peaks(&first), get_peaks(&second));
}

#[test]
fn plateau_is_one_region_founded_at_its_last_position() {
    let v: Vec<u32> = vec![4, 4, 4, 4];
    let homologies = find_homologies(&v).unwrap();
    assert_eq!(homologies.len(), 1);
    assert_eq!(homologies[0].get_peak_idx(), 3);
    assert_eq!(homologies[0].left_extent(), 0);
    assert_eq!(homologies[0].right_extent(), 3);
}

#[test]
fn get_peaks_of_no_regions_is_empty() {
    assert_eq!(get_peaks(&[]), Vec::<usize>::new());
}
