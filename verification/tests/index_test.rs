use nn_rs::error::TensorError;
use nn_rs::index::{compute_indices, increment_indices};
use nn_rs::shape::{broadcast_dimensions, checked_numel, compute_strides, reduce_shape};

#[test]
fn strides_are_row_major() {
    assert_eq!(compute_strides(&[2, 3, 4]), vec![12, 4, 1]);
    assert_eq!(compute_strides(&[5]), vec![1]);
    assert_eq!(compute_strides(&[]), Vec::<usize>::new());
    assert_eq!(compute_strides(&[3, 0, 2]), vec![0, 2, 1]);
    assert_eq!(compute_strides(&[4, 1, 1]), vec![1, 1, 1]);
}

#[test]
fn strides_stop_at_the_largest_number() {
    let big = usize::MAX;
    assert_eq!(compute_strides(&[2, big, 2]), vec![big, 2, 1]);
    assert_eq!(compute_strides(&[2, 2, big, big]), vec![big, big, big, 1]);
    assert_eq!(compute_strides(&[0, big, big]), vec![big, big, 1]);
    assert_eq!(compute_strides(&[big, 0, big]), vec![0, big, 1]);
}

#[test]
fn element_counts() {
    assert_eq!(checked_numel(&[2, 3, 4]), Some(24));
    assert_eq!(checked_numel(&[]), Some(1));
    assert_eq!(checked_numel(&[7, 0, 3]), Some(0));
    assert_eq!(checked_numel(&[usize::MAX, 2]), None);
    assert_eq!(checked_numel(&[usize::MAX, 2, 0]), Some(0));
    assert_eq!(checked_numel(&[0, usize::MAX, 2]), Some(0));
    assert_eq!(checked_numel(&[usize::MAX, 1]), Some(usize::MAX));
}

#[test]
fn broadcasting_follows_the_rule() {
    assert_eq!(broadcast_dimensions(&[3, 2], &[3, 1]), Ok(vec![3, 2]));
    assert_eq!(broadcast_dimensions(&[3, 1], &[1, 4]), Ok(vec![3, 4]));
    assert_eq!(broadcast_dimensions(&[2, 3], &[3]), Ok(vec![2, 3]));
    assert_eq!(broadcast_dimensions(&[3], &[2, 3]), Ok(vec![2, 3]));
    assert_eq!(broadcast_dimensions(&[], &[2, 3]), Ok(vec![2, 3]));
    assert_eq!(broadcast_dimensions(&[1, 0], &[5, 1]), Ok(vec![5, 0]));
    assert_eq!(
        broadcast_dimensions(&[3], &[2]),
        Err(TensorError::NotBroadcastable)
    );
    assert_eq!(
        broadcast_dimensions(&[2, 3], &[3, 2]),
        Err(TensorError::NotBroadcastable)
    );
}

#[test]
fn shapes_lose_their_unit_dimensions() {
    assert_eq!(reduce_shape(&[1, 2, 1, 3]), vec![2, 3]);
    assert_eq!(reduce_shape(&[1, 1]), vec![1]);
    assert_eq!(reduce_shape(&[]), vec![1]);
    assert_eq!(reduce_shape(&[4, 0, 1]), vec![4, 0]);
}

#[test]
fn positions_unravel_to_indices() {
    assert_eq!(compute_indices(0, &[2, 3]), vec![0, 0]);
    assert_eq!(compute_indices(4, &[2, 3]), vec![1, 1]);
    assert_eq!(compute_indices(5, &[2, 3]), vec![1, 2]);
    assert_eq!(compute_indices(23, &[2, 3, 4]), vec![1, 2, 3]);
    assert_eq!(compute_indices(0, &[]), Vec::<usize>::new());
    assert_eq!(compute_indices(3, &[2, 0, 5]), vec![0, 0, 3]);
}

#[test]
fn stepping_walks_in_row_major_order() {
    let shape = [2, 3];
    let mut idx = vec![0, 0];
    let mut seen = Vec::new();
    for position in 0..6 {
        assert_eq!(idx, compute_indices(position, &shape));
        seen.push(idx.clone());
        increment_indices(&mut idx, &shape);
    }
    assert_eq!(idx, vec![0, 0]);
    assert_eq!(seen[3], vec![1, 0]);
    let mut short = vec![1];
    increment_indices(&mut short, &[2, 7]);
    assert_eq!(short, vec![0]);
}

#[test]
fn a_plateau_needs_patience() {
    let mut detector = nn_rs::stopper::PlateauDetector::new(2);
    assert!(!detector.has_plateaued(true));
    assert!(!detector.has_plateaued(false));
    assert!(detector.has_plateaued(false));
    assert!(detector.has_plateaued(false));
    assert!(!detector.has_plateaued(true));
    assert_eq!(detector.wait, 0);
    let mut eager = nn_rs::stopper::PlateauDetector::new(0);
    assert!(eager.has_plateaued(true));
    let mut worn = nn_rs::stopper::PlateauDetector { patience: 5, wait: usize::MAX };
    assert!(worn.has_plateaued(false));
    assert_eq!(worn.wait, usize::MAX);
}
