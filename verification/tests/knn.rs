use digit_recognizer::classifier::KNNClassifier;
use digit_recognizer::classifier::PredictError;
use digit_recognizer::distance::squared_euclidean_distance;
use digit_recognizer::neighbors::nearest_indices;
use digit_recognizer::sample::Sample;
use digit_recognizer::sample::NUM_CLASSES;
use digit_recognizer::vote::majority_label;
use digit_recognizer::vote::tally_votes;

fn fitted(k: usize, samples: Vec<Sample>) -> KNNClassifier {
    let mut c = KNNClassifier::new(k);
    c.fit(samples);
    c
}

#[test]
fn distance_is_sum_of_squared_differences() {
    assert_eq!(squared_euclidean_distance(&[0, 0], &[3, 4]), 25);
    assert_eq!(squared_euclidean_distance(&[3, 4], &[0, 0]), 25);
    assert_eq!(squared_euclidean_distance(&[1, -2, 7], &[1, -2, 7]), 0);
    assert_eq!(squared_euclidean_distance(&[-5], &[5]), 100);
}

#[test]
fn distance_of_empty_vectors_is_zero() {
    assert_eq!(squared_euclidean_distance(&[], &[]), 0);
    assert_eq!(squared_euclidean_distance(&[], &[1, 2, 3]), 0);
}

#[test]
fn distance_compares_only_the_shared_prefix() {
    assert_eq!(squared_euclidean_distance(&[1, 2, 300], &[1, 5]), 9);
    assert_eq!(squared_euclidean_distance(&[1, 5], &[1, 2, 300]), 9);
}

#[test]
fn distance_of_extreme_values_does_not_overflow() {
    let one: u128 = 18446744065119617025;
    assert_eq!(squared_euclidean_distance(&[i32::MIN], &[i32::MAX]), one);
    assert_eq!(
        squared_euclidean_distance(&[i32::MIN, i32::MAX, 0], &[i32::MAX, i32::MIN, 0]),
        2 * one
    );
}

#[test]
fn nearest_indices_orders_by_distance() {
    assert_eq!(nearest_indices(&vec![30, 10, 20], 3), vec![1, 2, 0]);
    assert_eq!(nearest_indices(&vec![30, 10, 20], 2), vec![1, 2]);
    assert_eq!(nearest_indices(&vec![30, 10, 20], 1), vec![1]);
}

#[test]
fn nearest_indices_keeps_ties_in_training_order() {
    assert_eq!(nearest_indices(&vec![5, 1, 5, 1, 0], 3), vec![4, 1, 3]);
    assert_eq!(nearest_indices(&vec![5, 1, 5, 1, 0], 5), vec![4, 1, 3, 0, 2]);
    assert_eq!(nearest_indices(&vec![7, 7, 7, 7], 2), vec![0, 1]);
}

#[test]
fn nearest_indices_with_zero_or_large_k() {
    assert_eq!(nearest_indices(&vec![3, 2, 1], 0), Vec::<usize>::new());
    assert_eq!(nearest_indices(&vec![3, 2, 1], 10), vec![2, 1, 0]);
    assert_eq!(nearest_indices(&Vec::new(), 4), Vec::<usize>::new());
}

#[test]
fn tally_counts_each_label() {
    let samples = vec![
        Sample::new(3, vec![0]),
        Sample::new(9, vec![0]),
        Sample::new(3, vec![0]),
        Sample::new(0, vec![0]),
    ];
    let counts = tally_votes(&samples, &vec![0, 2, 1]);
    assert_eq!(counts, vec![0, 0, 0, 2, 0, 0, 0, 0, 0, 1]);
    assert_eq!(counts.len(), NUM_CLASSES);
    let none = tally_votes(&samples, &Vec::new());
    assert_eq!(none, vec![0; 10]);
}

#[test]
fn majority_label_picks_highest_count() {
    assert_eq!(majority_label(&vec![0, 1, 4, 2, 0, 0, 0, 0, 0, 3]), 2);
    assert_eq!(majority_label(&vec![0, 0, 0, 0, 0, 0, 0, 0, 0, 1]), 9);
}

#[test]
fn majority_label_picks_lowest_label_on_tie() {
    assert_eq!(majority_label(&vec![0, 2, 0, 2, 0, 0, 0, 0, 0, 2]), 1);
    assert_eq!(majority_label(&vec![0, 0, 0, 0, 0, 0, 0, 0, 0, 0]), 0);
    assert_eq!(majority_label(&vec![5]), 0);
}

#[test]
fn new_classifier_is_unfit() {
    let c = KNNClassifier::new(3);
    assert_eq!(c.k(), 3);
    assert_eq!(c.training_len(), 0);
}

#[test]
fn fit_replaces_the_training_set() {
    let mut c = KNNClassifier::new(1);
    c.fit(vec![Sample::new(4, vec![0, 0])]);
    assert_eq!(c.training_len(), 1);
    assert_eq!(c.predict(&[0, 0]), 4);
    c.fit(vec![Sample::new(6, vec![0, 0]), Sample::new(2, vec![9, 9])]);
    assert_eq!(c.k(), 1);
    assert_eq!(c.training_len(), 2);
    assert_eq!(c.predict(&[0, 0]), 6);
    assert_eq!(c.predict(&[8, 8]), 2);
}

#[test]
fn majority_of_three_neighbors_wins() {
    let c = fitted(
        3,
        vec![Sample::new(0, vec![1]), Sample::new(0, vec![2]), Sample::new(1, vec![3])],
    );
    assert_eq!(c.predict(&[0]), 0);
}

#[test]
fn majority_ignores_samples_beyond_k() {
    let c = fitted(
        3,
        vec![
            Sample::new(5, vec![100]),
            Sample::new(5, vec![101]),
            Sample::new(5, vec![102]),
            Sample::new(5, vec![103]),
            Sample::new(8, vec![1]),
            Sample::new(8, vec![2]),
            Sample::new(1, vec![3]),
        ],
    );
    assert_eq!(c.predict(&[0]), 8);
}

#[test]
fn equal_votes_go_to_the_lowest_label() {
    let near_zero = fitted(2, vec![Sample::new(0, vec![1]), Sample::new(1, vec![2])]);
    assert_eq!(near_zero.predict(&[0]), 0);
    let near_one = fitted(2, vec![Sample::new(1, vec![1]), Sample::new(0, vec![2])]);
    assert_eq!(near_one.predict(&[0]), 0);
    let high = fitted(2, vec![Sample::new(9, vec![1]), Sample::new(4, vec![2])]);
    assert_eq!(high.predict(&[0]), 4);
}

#[test]
fn equal_distances_keep_training_order() {
    let c = fitted(1, vec![Sample::new(7, vec![-2]), Sample::new(3, vec![2])]);
    assert_eq!(c.predict(&[0]), 7);
    let d = fitted(1, vec![Sample::new(3, vec![2]), Sample::new(7, vec![-2])]);
    assert_eq!(d.predict(&[0]), 3);
}

#[test]
fn identical_sample_gives_its_label_with_one_neighbor() {
    let c = fitted(
        1,
        vec![
            Sample::new(2, vec![10, 20, 30]),
            Sample::new(6, vec![11, 20, 30]),
            Sample::new(9, vec![10, 20, 31]),
        ],
    );
    assert_eq!(c.predict(&[11, 20, 30]), 6);
    assert_eq!(c.predict(&[10, 20, 31]), 9);
    assert_eq!(c.predict(&[10, 20, 30]), 2);
}

#[test]
fn prediction_is_always_a_class_id() {
    let samples: Vec<Sample> = (0..30)
        .map(|i: i32| Sample::new((i % 10) as u8, vec![i * 7 % 13, i * 5 % 11]))
        .collect();
    for k in 1..=30 {
        let c = fitted(k, samples.clone());
        for q in 0..12 {
            let label = c.predict(&[q, 12 - q]);
            assert!((label as usize) < NUM_CLASSES);
        }
    }
}

#[test]
fn reordering_without_ties_keeps_the_label() {
    let a = Sample::new(1, vec![1]);
    let b = Sample::new(2, vec![2]);
    let c = Sample::new(2, vec![4]);
    let d = Sample::new(1, vec![8]);
    let e = Sample::new(1, vec![16]);
    let one = fitted(3, vec![a.clone(), b.clone(), c.clone(), d.clone(), e.clone()]);
    let two = fitted(3, vec![e.clone(), c.clone(), a.clone(), d.clone(), b.clone()]);
    let three = fitted(3, vec![d, e, c, b, a]);
    assert_eq!(one.predict(&[0]), 2);
    assert_eq!(two.predict(&[0]), 2);
    assert_eq!(three.predict(&[0]), 2);
    assert_eq!(one.predict(&[20]), 1);
    assert_eq!(two.predict(&[20]), 1);
    assert_eq!(three.predict(&[20]), 1);
}

#[test]
fn same_query_gives_same_label() {
    let c = fitted(
        2,
        vec![Sample::new(5, vec![3, 3]), Sample::new(4, vec![-3, 3]), Sample::new(4, vec![0, 9])],
    );
    let first = c.predict(&[0, 0]);
    let second = c.predict(&[0, 0]);
    assert_eq!(first, 4);
    assert_eq!(first, second);
}

#[test]
fn zero_neighbors_on_the_exact_function_elect_the_lowest_label() {
    let c = fitted(0, vec![Sample::new(5, vec![0])]);
    assert_eq!(c.predict(&[0]), 0);
}

#[test]
fn shorter_query_is_compared_on_the_shared_prefix() {
    let c = fitted(1, vec![Sample::new(1, vec![0, 1000]), Sample::new(2, vec![5, 0])]);
    assert_eq!(c.predict(&[1]), 1);
    assert_eq!(c.predict(&[4]), 2);
}

#[test]
fn try_predict_answers_a_well_formed_query() {
    let c = fitted(
        3,
        vec![Sample::new(0, vec![1]), Sample::new(0, vec![2]), Sample::new(1, vec![3])],
    );
    assert_eq!(c.try_predict(&[0]), Ok(0));
    let one = fitted(1, vec![Sample::new(0, vec![1]), Sample::new(3, vec![9])]);
    assert_eq!(one.try_predict(&[8]), Ok(3));
}

#[test]
fn try_predict_rejects_zero_neighbors() {
    let c = fitted(0, vec![Sample::new(0, vec![1])]);
    assert_eq!(c.try_predict(&[0]), Err(PredictError::DegenerateInput));
}

#[test]
fn try_predict_rejects_an_empty_training_set() {
    let unfit = KNNClassifier::new(3);
    assert_eq!(unfit.try_predict(&[0]), Err(PredictError::DegenerateInput));
    let emptied = fitted(1, Vec::new());
    assert_eq!(emptied.try_predict(&[]), Err(PredictError::DegenerateInput));
}

#[test]
fn try_predict_rejects_too_few_samples() {
    let c = fitted(3, vec![Sample::new(0, vec![1]), Sample::new(0, vec![2])]);
    assert_eq!(c.try_predict(&[0]), Err(PredictError::PreconditionViolation));
}

#[test]
fn try_predict_rejects_a_dimension_mismatch() {
    let c = fitted(1, vec![Sample::new(0, vec![1, 2]), Sample::new(0, vec![2, 3])]);
    assert_eq!(c.try_predict(&[0]), Err(PredictError::PreconditionViolation));
    assert_eq!(c.try_predict(&[0, 0, 0]), Err(PredictError::PreconditionViolation));
    let ragged = fitted(1, vec![Sample::new(0, vec![1, 2]), Sample::new(0, vec![2])]);
    assert_eq!(ragged.try_predict(&[0, 0]), Err(PredictError::PreconditionViolation));
}

#[test]
fn try_predict_rejects_a_label_outside_the_classes() {
    let c = fitted(1, vec![Sample::new(0, vec![1]), Sample::new(10, vec![2])]);
    assert_eq!(c.try_predict(&[0]), Err(PredictError::PreconditionViolation));
    assert!(!Sample::new(10, vec![2]).has_valid_label());
    assert!(Sample::new(9, vec![2]).has_valid_label());
}

#[test]
fn predict_all_answers_in_query_order() {
    let c = fitted(
        1,
        vec![Sample::new(1, vec![10]), Sample::new(2, vec![20]), Sample::new(3, vec![30])],
    );
    let queries = vec![vec![31], vec![9], vec![21], vec![11], vec![29]];
    assert_eq!(c.predict_all(&queries), vec![3, 1, 2, 1, 3]);
    assert_eq!(c.predict_all(&Vec::new()), Vec::<u8>::new());
}

#[test]
fn many_samples_of_many_dimensions_give_one_label_per_query() {
    let dims: usize = 784;
    let samples: Vec<Sample> = (0..1000usize)
        .map(|i| Sample::new((i % 10) as u8, vec![(i % 10) as i32 * 25; dims]))
        .collect();
    let c = fitted(3, samples);
    let queries: Vec<Vec<i32>> =
        (0..40usize).map(|q| vec![(q % 10) as i32 * 25 + 1; dims]).collect();
    let labels = c.predict_all(&queries);
    assert_eq!(labels.len(), 40);
    for (q, label) in labels.iter().enumerate() {
        assert_eq!(*label as usize, q % 10);
    }
}
