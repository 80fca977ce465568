use dezero::weights::{load_weights, WeightLoadError};

fn stored(shape: Vec<usize>, data: f32) -> Option<(Vec<usize>, f32)> {
    Some((shape, data))
}

#[test]
fn all_parameters_are_replaced_when_everything_fits() {
    let mut params = vec![0.0f32, 0.0];
    let shapes = vec![vec![2, 3], vec![3]];
    let r = load_weights(&mut params, &shapes, vec![stored(vec![2, 3], 1.5), stored(vec![3], 2.5)]);
    assert_eq!(r, Ok(()));
    assert_eq!(params, vec![1.5, 2.5]);
}

#[test]
fn a_missing_entry_leaves_every_parameter_untouched() {
    let mut params = vec![7.0f32, 8.0, 9.0];
    let shapes = vec![vec![2], vec![2], vec![2]];
    let r = load_weights(&mut params, &shapes, vec![stored(vec![2], 1.0), None, stored(vec![5], 3.0)]);
    assert_eq!(r, Err(WeightLoadError::Missing(1)));
    assert_eq!(params, vec![7.0, 8.0, 9.0]);
}

#[test]
fn the_first_shape_mismatch_is_reported() {
    let mut params = vec![7.0f32, 8.0, 9.0];
    let shapes = vec![vec![2, 2], vec![4], vec![1]];
    let r = load_weights(&mut params, &shapes, vec![stored(vec![2, 2], 1.0), stored(vec![2, 2], 2.0), None]);
    assert_eq!(r, Err(WeightLoadError::ShapeMismatch(1)));
    assert_eq!(params, vec![7.0, 8.0, 9.0]);
}

#[test]
fn nothing_to_load_is_fine() {
    let mut params: Vec<f32> = vec![];
    assert_eq!(load_weights(&mut params, &vec![], vec![]), Ok(()));
    assert!(params.is_empty());
}
