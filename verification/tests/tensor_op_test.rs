use nn_rs::error::TensorError;
use nn_rs::index::increment_indices;
use nn_rs::shape::reduce_shape;
use nn_rs::tensor::Tensor;

#[test]
fn new() {
    let data: Vec<f32> = vec![1.0, 2.0, 3.0, 4.0];
    let tensor = Tensor::new(data.clone(), &[2, 2]).unwrap();

    assert_eq!(tensor.shape(), &vec![2, 2]);
    assert_eq!(tensor.as_slice().unwrap(), &data[..]);
}

#[test]
fn test_new_invalid_shape() {
    let data: Vec<f32> = vec![1.0, 2.0, 3.0, 4.0];
    let r = Tensor::new(data, &[3, 2]);
    assert!(matches!(r, Err(TensorError::ShapeMismatch)));
}

#[test]
fn tensor_op_test_test_reshape() {
    let data: Vec<f32> = vec![1.0, 2.0, 3.0, 4.0];
    let tensor = Tensor::new(data.clone(), &[2, 2]).unwrap();
    let reshaped = tensor.reshape(&[4, 1]).unwrap();

    assert_eq!(reshaped.shape(), &vec![4, 1]);
    assert_eq!(reshaped.as_slice().unwrap(), &data[..]);
}

#[test]
fn test_reshape_invalid() {
    let data: Vec<f32> = vec![1.0, 2.0, 3.0, 4.0];
    let tensor = Tensor::new(data, &[2, 2]).unwrap();
    let r = tensor.reshape(&[3, 2]);
    assert!(matches!(r, Err(TensorError::ShapeMismatch)));
}

#[test]
fn test_new_set_get() {
    let data: Vec<f32> = vec![1.0, 2.0, 3.0, 4.0];

    let mut tensor = Tensor::new(data, &[2, 2]).unwrap();

    assert_eq!(tensor.get(&[0, 0]).unwrap(), 1.0);
    tensor.set(&[0, 0], 5.0).unwrap();
    assert_eq!(tensor.get(&[0, 0]).unwrap(), 5.0);

    assert_eq!(tensor.as_slice().unwrap()[1], 2.0);
    tensor.set(&[0, 1], 3.0).unwrap();
    assert_eq!(tensor.as_slice().unwrap()[1], 3.0);
}

#[test]
fn test_clone() {
    let data: Vec<f32> = vec![1.0, 2.0, 3.0, 4.0];
    let tensor = Tensor::new(data.clone(), &[2, 2]).unwrap();
    let tensor_clone = tensor.clone();

    assert_eq!(tensor.shape(), tensor_clone.shape());
    assert_eq!(tensor.as_slice().unwrap(), tensor_clone.as_slice().unwrap());
}

#[test]
fn test_increment_indices() {
    let mut indices = vec![0, 0];
    let shape = vec![2, 2];
    increment_indices(&mut indices, &shape);
    assert_eq!(indices, [0, 1]);

    let mut indices = vec![0, 1];
    let shape = vec![2, 2];
    increment_indices(&mut indices, &shape);
    assert_eq!(indices, [1, 0]);
}

#[test]
fn test_reduce_shape() {
    let reduced = reduce_shape(&[1, 2, 1, 3]);
    assert_eq!(reduced, vec![2, 3]);
}

#[test]
fn test_is_scalar() {
    let data: Vec<f32> = vec![42.0];
    let tensor = Tensor::new(data, &[1, 1]).unwrap();
    assert!(tensor.is_scalar());

    let data: Vec<f32> = vec![1.0, 2.0];
    let tensor = Tensor::new(data, &[2, 1]).unwrap();
    assert!(!tensor.is_scalar());
}

#[test]
fn test_from_scalar() {
    let scalar_value: f32 = 7.0;
    let tensor = Tensor::from_scalar(scalar_value);
    assert_eq!(tensor.shape(), &vec![1]);
    assert_eq!(tensor.get(&[0]).unwrap(), scalar_value);
    assert_eq!(tensor.as_scalar(), Some(scalar_value));
}
