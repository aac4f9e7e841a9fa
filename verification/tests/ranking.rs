use topological_peak_detection::{relate, sorted_indices, Relation};

#[test]
fn ranking_is_ascending_and_keeps_ties_in_place() {
    let v: Vec<i32> = vec![1, 2, 3, 4, 5, 4, 3, 6, 3, 1, 1, 1, 5];
    let ranking = sorted_indices(&v).unwrap();
    assert_eq!(ranking, vec![0, 9, 10, 11, 1, 2, 6, 8, 3, 5, 4, 12, 7]);
}

#[test]
fn ranking_is_a_permutation() {
    let v: Vec<f64> = (0..1000).map(|x| ((x as f64) * 1.7).cos()).collect();
    let mut ranking = sorted_indices(&v).unwrap();
    for w in ranking.windows(2) {
        assert!(v[w[0]] <= v[w[1]]);
    }
    ranking.sort();
    let all: Vec<usize> = (0..1000).collect();
    assert_eq!(ranking, all);
}

#[test]
fn ranking_of_equal_values_is_the_identity() {
    let v: Vec<u8> = vec![7; 33];
    let all: Vec<usize> = (0..33).collect();
    assert_eq!(sorted_indices(&v).unwrap(), all);
}

#[test]
fn ranking_of_a_descending_sequence_is_reversed() {
    let v: Vec<i32> = vec![50, 40, 30, 20, 10];
    assert_eq!(sorted_indices(&v).unwrap(), vec![4, 3, 2, 1, 0]);
}

#[test]
fn ranking_of_one_value() {
    assert_eq!(sorted_indices(&["only"]).unwrap(), vec![0]);
}

#[test]
fn ranking_fails_on_empty_input() {
    let none: Vec<u64> = Vec::new();
    assert!(sorted_indices(&none).is_err());
}

#[test]
fn ranking_fails_on_nan() {
    assert!(sorted_indices(&[1.0, f64::NAN, 3.0]).is_err());
    assert!(sorted_indices(&[f64::NAN, 1.0, 3.0]).is_err());
    assert!(sorted_indices(&[1.0, 3.0, f64::NAN]).is_err());
    assert!(sorted_indices(&[f64::NAN]).is_err());
}

#[test]
fn relate_follows_the_ordering() {
    assert_eq!(relate(&1, &2), Relation::Below);
    assert_eq!(relate(&2, &2), Relation::Same);
    assert_eq!(relate(&3, &2), Relation::Above);
    assert_eq!(relate(&1.5, &f64::NAN), Relation::Unrelated);
    assert_eq!(relate(&f32::NAN, &f32::NAN), Relation::Unrelated);
    assert_eq!(relate(&"a", &"b"), Relation::Below);
}
