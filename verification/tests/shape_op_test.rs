use nn_rs::error::TensorError;
use nn_rs::tensor::Tensor;

#[test]
fn test_transpose() {
    let data: Vec<f32> = vec![1.0, 2.0, 3.0, 4.0, 5.0, 6.0];
    let tensor = Tensor::new(data, &[2, 3]).unwrap();
    let transposed = tensor.transpose().unwrap();
    assert_eq!(transposed.shape(), &vec![3, 2]);
    let expected_data = vec![1.0, 4.0, 2.0, 5.0, 3.0, 6.0];
    for i in 0..3 {
        for j in 0..2 {
            assert_eq!(transposed.get(&[i, j]).unwrap(), expected_data[i * 2 + j]);
        }
    }
}

#[test]
fn test_zeros() {
    let tensor = Tensor::zeros(&[3, 4], 0.0f32);
    assert_eq!(tensor.shape(), &vec![3, 4]);
    for i in 0..3 {
        for j in 0..4 {
            assert_eq!(tensor.get(&[i, j]).unwrap(), 0.0);
        }
    }
}

#[test]
fn test_ones() {
    let tensor = Tensor::ones(&[2, 5], 1.0f32);
    assert_eq!(tensor.shape(), &vec![2, 5]);
    for i in 0..2 {
        for j in 0..5 {
            assert_eq!(tensor.get(&[i, j]).unwrap(), 1.0);
        }
    }
}

#[test]
fn test_as_slice() {
    let data: Vec<f32> = vec![1.0, 2.0, 3.0, 4.0];
    let tensor = Tensor::new(data.clone(), &[2, 2]).unwrap();
    assert_eq!(tensor.as_slice().unwrap(), &data[..]);
}

#[test]
fn shape_op_test_test_reshape() {
    let data: Vec<f32> = vec![1.0, 2.0, 3.0, 4.0];
    let tensor = Tensor::new(data.clone(), &[2, 2]).unwrap();
    let reshaped = tensor.reshape(&[4, 1]).unwrap();

    assert_eq!(reshaped.shape(), &vec![4, 1]);
    assert_eq!(reshaped.as_slice().unwrap(), &data[..]);
}

#[test]
fn test_unsqueeze() {
    let data: Vec<f32> = vec![1.0, 2.0, 3.0, 4.0];
    let tensor = Tensor::new(data.clone(), &[2, 2]).unwrap();
    let unsqueezed = tensor.unsqueeze(0).unwrap();

    assert_eq!(unsqueezed.shape(), &vec![1, 2, 2]);
    assert_eq!(unsqueezed.as_slice().unwrap(), &data[..]);
}

#[test]
fn test_squeeze() {
    let data: Vec<f32> = vec![1.0, 2.0, 3.0, 4.0];
    let tensor = Tensor::new(data.clone(), &[1, 2, 2]).unwrap();
    let squeezed = tensor.squeeze(0).unwrap();
    assert_eq!(squeezed.shape(), &vec![2, 2]);
    assert_eq!(squeezed.as_slice().unwrap(), &data[..]);
}

#[test]
fn squeeze_refuses_wide_dimension() {
    let tensor = Tensor::new(vec![1.0f32, 2.0, 3.0, 4.0], &[2, 2]).unwrap();
    assert!(matches!(tensor.squeeze(0), Err(TensorError::ShapeMismatch)));
    assert!(matches!(tensor.squeeze(2), Err(TensorError::IndexOutOfBounds)));
    assert!(matches!(tensor.unsqueeze(3), Err(TensorError::IndexOutOfBounds)));
}

#[test]
fn transpose_is_a_view_until_copied() {
    let data: Vec<f32> = vec![1.0, 2.0, 3.0, 4.0, 5.0, 6.0];
    let tensor = Tensor::new(data, &[2, 3]).unwrap();
    let transposed = tensor.transpose().unwrap();
    assert_eq!(transposed.strides(), &vec![1, 3]);
    assert!(!transposed.is_contiguous());
    assert!(matches!(transposed.as_slice(), Err(TensorError::NotContiguous)));
    let copied = transposed.to_contiguous();
    assert_eq!(copied.as_slice().unwrap(), &[1.0, 4.0, 2.0, 5.0, 3.0, 6.0][..]);
    assert_eq!(copied.strides(), &vec![2, 1]);
}

#[test]
fn reshape_keeps_the_flat_elements() {
    let data: Vec<f32> = vec![1.0, 2.0, 3.0, 4.0, 5.0, 6.0];
    let tensor = Tensor::new(data.clone(), &[2, 3]).unwrap();
    for shape in [vec![6], vec![3, 2], vec![1, 6], vec![2, 1, 3]] {
        let reshaped = tensor.reshape(&shape).unwrap();
        assert_eq!(reshaped.shape(), &shape);
        assert_eq!(reshaped.as_slice().unwrap(), tensor.as_slice().unwrap());
    }
    let transposed = tensor.transpose().unwrap();
    let flat = transposed.reshape(&[6]).unwrap();
    assert_eq!(flat.as_slice().unwrap(), &[1.0, 4.0, 2.0, 5.0, 3.0, 6.0][..]);
}

#[test]
fn broadcast_view_has_zero_strides() {
    let column = Tensor::new(vec![7.0f32, 8.0, 9.0], &[3, 1]).unwrap();
    let wide = column.broadcast_to(&[3, 2]).unwrap();
    assert_eq!(wide.shape(), &vec![3, 2]);
    assert_eq!(wide.strides(), &vec![1, 0]);
    for i in 0..3 {
        for j in 0..2 {
            assert_eq!(wide.get(&[i, j]).unwrap(), column.get(&[i, 0]).unwrap());
        }
    }
    let row = Tensor::new(vec![1.0f32, 2.0], &[2]).unwrap();
    let stacked = row.broadcast_to(&[3, 2]).unwrap();
    assert_eq!(stacked.strides(), &vec![0, 1]);
    assert_eq!(stacked.to_contiguous().as_slice().unwrap(), &[1.0, 2.0, 1.0, 2.0, 1.0, 2.0][..]);
    assert!(matches!(row.broadcast_to(&[2, 3]), Err(TensorError::NotBroadcastable)));
    assert!(matches!(wide.broadcast_to(&[2]), Err(TensorError::NotBroadcastable)));
}

#[test]
fn get_and_set_check_every_index() {
    let mut tensor = Tensor::new(vec![1.0f32, 2.0, 3.0, 4.0, 5.0, 6.0], &[2, 3]).unwrap();
    assert_eq!(tensor.get(&[1, 2]).unwrap(), 6.0);
    assert_eq!(tensor.compute_flat_index(&[1, 1]), Ok(4));
    assert!(matches!(tensor.get(&[2, 0]), Err(TensorError::IndexOutOfBounds)));
    assert!(matches!(tensor.get(&[0, 3]), Err(TensorError::IndexOutOfBounds)));
    assert!(matches!(tensor.get(&[0]), Err(TensorError::IndexOutOfBounds)));
    assert!(matches!(tensor.set(&[0, 3], 9.0), Err(TensorError::IndexOutOfBounds)));
    assert_eq!(tensor.as_slice().unwrap(), &[1.0, 2.0, 3.0, 4.0, 5.0, 6.0][..]);
}

#[test]
fn expand_dim_repeats_along_the_new_axis() {
    let tensor = Tensor::new(vec![1.0f32, 2.0], &[2]).unwrap();
    let tall = tensor.expand_dim(0, 3).unwrap();
    assert_eq!(tall.shape(), &vec![3, 2]);
    assert_eq!(tall.as_slice().unwrap(), &[1.0, 2.0, 1.0, 2.0, 1.0, 2.0][..]);
    let wide = tensor.expand_dim(1, 3).unwrap();
    assert_eq!(wide.shape(), &vec![2, 3]);
    assert_eq!(wide.as_slice().unwrap(), &[1.0, 1.0, 1.0, 2.0, 2.0, 2.0][..]);
    assert!(matches!(tensor.expand_dim(2, 3), Err(TensorError::IndexOutOfBounds)));
}

#[test]
fn test_as_mut_slice() {
    let mut tensor = Tensor::new(vec![1.0f32, 2.0, 3.0, 4.0], &[2, 2]).unwrap();
    tensor.set(&[0, 0], 5.0).unwrap();
    assert_eq!(tensor.get(&[0, 0]).unwrap(), 5.0);
}
