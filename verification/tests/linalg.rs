use nn_rs::error::TensorError;
use nn_rs::tensor::Tensor;

fn product(a: &Tensor<f32>, b: &Tensor<f32>) -> Result<Tensor<f32>, TensorError> {
    a.matmul(b, 0.0, |x, y| x * y, |x, y| x + y)
}

#[test]
fn tensor_new_set_get() {
    let data: Vec<f32> = vec![1.0, 2.0, 3.0, 4.0];

    let mut tensor = Tensor::new(data, &[2, 2]).unwrap();
    assert_eq!(tensor.get(&[0, 0]).unwrap(), 1.0);
    tensor.set(&[0, 0], 5.0).unwrap();
    assert_eq!(tensor.get(&[0, 0]).unwrap(), 5.0);

    assert_eq!(tensor.get(&[0, 1]).unwrap(), 2.0);
    tensor.set(&[0, 1], 3.0).unwrap();
    assert_eq!(tensor.get(&[0, 1]).unwrap(), 3.0);

    tensor.set(&[1, 0], 6.0).unwrap();
    assert_eq!(tensor.get(&[1, 0]).unwrap(), 6.0);
}

#[test]
fn tensor_add() {
    let data1: Vec<f32> = vec![0.0, 1.0, 2.0, 3.0, 4.0, 5.0, 6.0, 7.0, 8.0, 9.0];
    let data2: Vec<f32> = vec![5.0, 6.0, 7.0, 8.0, 9.0, 10.0, 11.0, 12.0, 13.0, 14.0];

    let tensor1 = Tensor::new(data1, &[2, 5]).unwrap();
    let tensor2 = Tensor::new(data2, &[2, 5]).unwrap();
    let result = tensor1.zip_with(&tensor2, |a, b| a + b).unwrap();
    let expected_data = vec![5.0, 7.0, 9.0, 11.0, 13.0, 15.0, 17.0, 19.0, 21.0, 23.0];

    assert_eq!(result.shape(), &vec![2, 5]);
    for i in 0..2 {
        for j in 0..5 {
            assert_eq!(result.get(&[i, j]).unwrap(), expected_data[i * 5 + j]);
        }
    }
}

#[test]
fn tensor_sub() {
    let data1: Vec<f32> = vec![5.0, 6.0, 7.0, 8.0, 9.0, 10.0, 11.0, 12.0, 13.0, 14.0];
    let data2: Vec<f32> = vec![0.0, 1.0, 2.0, 3.0, 4.0, 5.0, 6.0, 7.0, 8.0, 9.0];

    let tensor1 = Tensor::new(data1, &[2, 5]).unwrap();
    let tensor2 = Tensor::new(data2, &[2, 5]).unwrap();
    let result = tensor1.zip_with(&tensor2, |a, b| a - b).unwrap();
    let expected_data = vec![5.0; 10];

    assert_eq!(result.shape(), &vec![2, 5]);
    for i in 0..2 {
        for j in 0..5 {
            assert_eq!(result.get(&[i, j]).unwrap(), expected_data[i * 5 + j]);
        }
    }
}

#[test]
fn tensor_sub_mismatched_shape() {
    let tensor1 = Tensor::new(vec![5.0f32, 6.0, 7.0, 8.0], &[2, 2]).unwrap();
    let tensor2 = Tensor::new(vec![1.0f32, 2.0, 3.0], &[3]).unwrap();
    let result = tensor1.zip_with(&tensor2, |a, b| a - b);
    assert!(matches!(result, Err(TensorError::ShapeMismatch)));
}

#[test]
fn tensor_add_mismatched_shape() {
    let tensor1 = Tensor::new(vec![0.0f32, 1.0, 2.0, 3.0], &[2, 2]).unwrap();
    let tensor2 = Tensor::new(vec![4.0f32, 5.0, 6.0], &[3]).unwrap();
    let result = tensor1.zip_with(&tensor2, |a, b| a + b);
    assert!(matches!(result, Err(TensorError::ShapeMismatch)));
}

#[test]
fn tensor_mul() {
    let tensor1 = Tensor::new(vec![1.0f32, 2.0, 3.0, 4.0], &[2, 2]).unwrap();
    let tensor2 = Tensor::new(vec![5.0f32, 6.0, 7.0, 8.0], &[2, 2]).unwrap();
    let result = product(&tensor1, &tensor2).unwrap();
    let expected_data = vec![19.0, 22.0, 43.0, 50.0];
    assert_eq!(result.shape(), &vec![2, 2]);
    for i in 0..2 {
        for j in 0..2 {
            assert_eq!(result.get(&[i, j]).unwrap(), expected_data[i * 2 + j]);
        }
    }
}

#[test]
fn tensor_mul_mismatched_shape() {
    let tensor1 = Tensor::new(vec![1.0f32, 2.0, 3.0, 4.0], &[2, 2]).unwrap();
    let tensor2 = Tensor::new(vec![5.0f32, 6.0, 7.0, 8.0, 9.0, 10.0], &[3, 2]).unwrap();
    assert!(matches!(product(&tensor1, &tensor2), Err(TensorError::ShapeMismatch)));
}

#[test]
fn tensor_mul_vector() {
    let tensor = Tensor::new(vec![1.0f32, 2.0, 3.0, 4.0], &[2, 2]).unwrap();
    let vec = Tensor::new(vec![5.0f32, 6.0], &[2]).unwrap();

    let result = product(&tensor, &vec).unwrap();
    let expected_data = vec![17.0, 39.0];

    for i in 0..2 {
        assert_eq!(result.get(&[i]).unwrap(), expected_data[i]);
    }
}

#[test]
fn vector_mul_tensor() {
    let tensor = Tensor::new(vec![1.0f32, 2.0, 3.0, 4.0], &[2, 2]).unwrap();
    let vec = Tensor::new(vec![5.0f32, 6.0], &[2]).unwrap();

    let result = product(&vec, &tensor).unwrap();
    let expected_data = vec![23.0, 34.0];

    for i in 0..2 {
        assert_eq!(result.get(&[i]).unwrap(), expected_data[i]);
    }
}

#[test]
fn tensor_vec_mul_mismatched_shape() {
    let tensor = Tensor::new(vec![1.0f32, 2.0, 3.0, 4.0], &[2, 2]).unwrap();
    let vec = Tensor::new(vec![4.0f32, 5.0, 6.0], &[3]).unwrap();
    assert!(matches!(product(&tensor, &vec), Err(TensorError::ShapeMismatch)));
}

#[test]
fn vec_tensor_mul_mismatched_shape() {
    let tensor = Tensor::new(vec![1.0f32, 2.0, 3.0, 4.0], &[2, 2]).unwrap();
    let vec = Tensor::new(vec![4.0f32, 5.0, 6.0], &[3]).unwrap();
    assert!(matches!(product(&vec, &tensor), Err(TensorError::ShapeMismatch)));
}

#[test]
fn element_wise_mul() {
    let vec1 = Tensor::new(vec![1.0f32, 2.0, 3.0, 4.0], &[4]).unwrap();
    let vec2 = Tensor::new(vec![5.0f32, 6.0, 7.0, 8.0], &[4]).unwrap();
    let result = vec1.zip_with(&vec2, |a, b| a * b).unwrap();

    let expected_data = vec![5.0, 12.0, 21.0, 32.0];
    for i in 0..4 {
        assert_eq!(result.get(&[i]).unwrap(), expected_data[i]);
    }
}

#[test]
fn element_wise_mul_mismatched_shape() {
    let vec1 = Tensor::new(vec![1.0f32, 2.0, 3.0], &[3]).unwrap();
    let vec2 = Tensor::new(vec![4.0f32, 5.0], &[2]).unwrap();
    let result = vec1.zip_with(&vec2, |a, b| a * b);
    assert!(matches!(result, Err(TensorError::ShapeMismatch)));
}

#[test]
fn tensor_mul_shape_too_big() {
    let tensor1 =
        Tensor::new(vec![1.0f32, 2.0, 3.0, 4.0, 5.0, 6.0, 7.0, 8.0], &[2, 2, 2]).unwrap();
    let tensor2 = Tensor::new(vec![5.0f32, 6.0, 7.0], &[3]).unwrap();
    assert!(matches!(product(&tensor1, &tensor2), Err(TensorError::ShapeMismatch)));
}

#[test]
fn tensor_div_by_scalar() {
    let tensor = Tensor::new(vec![1.0f32, 2.0, 3.0, 4.0], &[2, 2]).unwrap();
    let scalar = 2.0;
    let result = tensor.div_scalar(scalar, |s| s == 0.0, |a, b| a / b).unwrap();
    let expected_data = vec![0.5, 1.0, 1.5, 2.0];
    for i in 0..2 {
        for j in 0..2 {
            assert_eq!(result.get(&[i, j]).unwrap(), expected_data[i * 2 + j]);
        }
    }
}

#[test]
fn tensor_div_by_zero() {
    let tensor = Tensor::new(vec![1.0f32, 2.0, 3.0, 4.0], &[2, 2]).unwrap();
    let result = tensor.div_scalar(0.0, |s| s == 0.0, |a, b| a / b);
    assert!(matches!(result, Err(TensorError::DivisionByZero)));
}

#[test]
fn tensor_init_mismatched_shape() {
    let data: Vec<f32> = vec![1.0, 2.0, 3.0, 4.0];
    assert!(matches!(Tensor::new(data, &[3, 2]), Err(TensorError::ShapeMismatch)));
}

#[test]
fn tensor_access_mismatched_shape() {
    let tensor = Tensor::new(vec![1.0f32, 2.0, 3.0, 4.0], &[2, 2]).unwrap();
    assert!(matches!(tensor.get(&[2, 0, 1]), Err(TensorError::IndexOutOfBounds)));
}

#[test]
fn tensor_get_level() {
    let data: Vec<f32> = vec![
        1.0, 2.0, 3.0, 4.0, 5.0, 6.0, 7.0, 8.0, 9.0, 10.0, 11.0, 12.0,
    ];
    let tensor = Tensor::new(data, &[3, 2, 2]).unwrap();
    let level0 = tensor.slice(0, 1, 1).unwrap();
    assert_eq!(level0.shape(), &vec![1, 2, 2]);
    let expected_data = vec![5.0, 6.0, 7.0, 8.0];
    for i in 0..2 {
        for j in 0..2 {
            assert_eq!(level0.get(&[0, i, j]).unwrap(), expected_data[i * 2 + j]);
        }
    }
}

#[test]
fn tensor_get_levels() {
    let data: Vec<f32> = vec![
        1.0, 2.0, 3.0, 4.0, 5.0, 6.0, 7.0, 8.0, 9.0, 10.0, 11.0, 12.0, 13.0, 14.0, 15.0, 16.0,
    ];
    let tensor = Tensor::new(data, &[4, 2, 2]).unwrap();
    let sub_tensor = tensor.gather(0, &[1, 3]).unwrap();
    assert_eq!(sub_tensor.shape(), &vec![2, 2, 2]);
    let expected_data = vec![5.0, 6.0, 7.0, 8.0, 13.0, 14.0, 15.0, 16.0];
    for i in 0..2 {
        for j in 0..2 {
            assert_eq!(sub_tensor.get(&[0, i, j]).unwrap(), expected_data[i * 2 + j]);
            assert_eq!(sub_tensor.get(&[1, i, j]).unwrap(), expected_data[i * 2 + j + 4]);
        }
    }
}

#[test]
fn tensor_get_level_out_of_bounds() {
    let tensor = Tensor::new(vec![1.0f32, 2.0, 3.0, 4.0, 5.0, 6.0], &[3, 2, 1]).unwrap();
    assert!(matches!(tensor.slice(0, 3, 1), Err(TensorError::IndexOutOfBounds)));
}

#[test]
fn tensor_map() {
    let tensor = Tensor::new(vec![1.0f32, 2.0, 3.0, 4.0], &[2, 2]).unwrap();
    let result = tensor.map(|x| x * 2.0);
    let expected_data = vec![2.0, 4.0, 6.0, 8.0];
    for i in 0..2 {
        for j in 0..2 {
            assert_eq!(result.get(&[i, j]).unwrap(), expected_data[i * 2 + j]);
        }
    }
}

#[test]
fn tensor_transpose() {
    let tensor = Tensor::new(vec![1.0f32, 2.0, 3.0, 4.0], &[2, 2]).unwrap();
    let result = tensor.transpose().unwrap();
    let expected_data = vec![1.0, 3.0, 2.0, 4.0];
    for i in 0..2 {
        for j in 0..2 {
            assert_eq!(result.get(&[i, j]).unwrap(), expected_data[i * 2 + j]);
        }
    }
}

#[test]
fn tensor_transpose_out_of_dims() {
    let tensor =
        Tensor::new(vec![1.0f32, 2.0, 3.0, 4.0, 5.0, 6.0, 7.0, 8.0], &[2, 2, 2]).unwrap();
    assert!(matches!(tensor.transpose(), Err(TensorError::ShapeMismatch)));
}

#[test]
fn tensor_broadcast_add() {
    let tensor = Tensor::new(vec![1.0f32, 2.0, 3.0, 4.0, 5.0, 6.0], &[2, 3]).unwrap();
    let vec1 = Tensor::new(vec![5.0f32, 6.0], &[2, 1]).unwrap();
    let result = [
        tensor.zip_with(&vec1, |a, b| a + b).unwrap(),
        vec1.zip_with(&tensor, |a, b| a + b).unwrap(),
    ];
    let expected_data = vec![6.0, 7.0, 8.0, 10.0, 11.0, 12.0];
    for i in 0..2 {
        for j in 0..3 {
            assert_eq!(result[0].get(&[i, j]).unwrap(), expected_data[i * 3 + j]);
            assert_eq!(result[1].get(&[i, j]).unwrap(), expected_data[i * 3 + j]);
        }
    }
}

#[test]
fn tensor_broadcast_add_shape_mismatch() {
    let tensor = Tensor::new(vec![1.0f32, 2.0, 3.0, 4.0], &[2, 2]).unwrap();
    let vec1 = Tensor::new(vec![5.0f32; 9], &[3, 3]).unwrap();
    assert!(matches!(
        tensor.zip_with(&vec1, |a, b| a + b),
        Err(TensorError::ShapeMismatch)
    ));
}

#[test]
fn tensor_element_wise_mul() {
    let tensor = Tensor::new(vec![1.0f32, 2.0, 3.0, 4.0], &[2, 2]).unwrap();
    let tensor2 = Tensor::new(vec![5.0f32, 6.0, 7.0, 8.0], &[2, 2]).unwrap();
    let result = tensor.zip_with(&tensor2, |a, b| a * b).unwrap();
    let expected_data = vec![5.0, 12.0, 21.0, 32.0];
    for i in 0..2 {
        for j in 0..2 {
            assert_eq!(result.get(&[i, j]).unwrap(), expected_data[i * 2 + j]);
        }
    }
}

#[test]
fn tensor_element_wise_mul_shape_mismatch() {
    let tensor = Tensor::new(vec![1.0f32, 2.0, 3.0, 4.0], &[2, 2]).unwrap();
    let tensor2 = Tensor::new(vec![5.0f32, 6.0, 7.0], &[3]).unwrap();
    assert!(matches!(
        tensor.zip_with(&tensor2, |a, b| a * b),
        Err(TensorError::ShapeMismatch)
    ));
}

#[test]
fn tensor_sub_scalar() {
    let tensor = Tensor::new(vec![1.0f32, 2.0, 3.0, 4.0], &[2, 2]).unwrap();
    let scalar = 5.0;

    let results = [tensor.map(|x| x - scalar), tensor.map(|x| scalar - x)];
    let expected_data = [[-4.0, -3.0, -2.0, -1.0], [4.0, 3.0, 2.0, 1.0]];

    for k in 0..2 {
        assert_eq!(results[k].shape(), &vec![2, 2]);
        for i in 0..2 {
            for j in 0..2 {
                assert_eq!(results[k].get(&[i, j]).unwrap(), expected_data[k][i * 2 + j]);
            }
        }
    }
}

#[test]
fn tensor_neg() {
    let tensor = Tensor::new(vec![1.0f32, 2.0, 3.0, 4.0], &[2, 2]).unwrap();
    let result = tensor.map(|x| -x);
    let expected_data = vec![-1.0, -2.0, -3.0, -4.0];
    assert_eq!(result.shape(), &vec![2, 2]);
    for i in 0..2 {
        for j in 0..2 {
            assert_eq!(result.get(&[i, j]).unwrap(), expected_data[i * 2 + j]);
        }
    }
}

#[test]
fn tensor_scalar_add() {
    let tensor = Tensor::new(vec![1.0f32, 2.0, 3.0, 4.0], &[2, 2]).unwrap();
    let scalar = 5.0;
    let results = vec![tensor.map(|x| x + scalar), tensor.map(|x| scalar + x)];
    let expected_data = vec![6.0, 7.0, 8.0, 9.0];
    for result in results {
        assert_eq!(result.shape(), &vec![2, 2]);
        for i in 0..2 {
            for j in 0..2 {
                assert_eq!(result.get(&[i, j]).unwrap(), expected_data[i * 2 + j]);
            }
        }
    }
}

#[test]
fn tensor_scalar_mul() {
    let tensor = Tensor::new(vec![1.0f32, 2.0, 3.0, 4.0], &[2, 2]).unwrap();
    let scalar = 2.0;
    let results = vec![tensor.map(|x| x * scalar), tensor.map(|x| scalar * x)];
    let expected_data = vec![2.0, 4.0, 6.0, 8.0];
    for result in results {
        assert_eq!(result.shape(), &vec![2, 2]);
        for i in 0..2 {
            for j in 0..2 {
                assert_eq!(result.get(&[i, j]).unwrap(), expected_data[i * 2 + j]);
            }
        }
    }
}

#[test]
fn tensor_squeeze() {
    let tensor = Tensor::new(vec![1.0f32, 2.0, 3.0, 4.0], &[2, 2]).unwrap();
    let result = tensor
        .reshape(&nn_rs::shape::reduce_shape(tensor.shape()))
        .unwrap();
    assert_eq!(result.shape(), &vec![2, 2]);
    for i in 0..2 {
        for j in 0..2 {
            assert_eq!(result.get(&[i, j]).unwrap(), tensor.get(&[i, j]).unwrap());
        }
    }

    let tensor2 = Tensor::new(vec![1.0f32, 2.0, 3.0, 4.0, 5.0, 6.0], &[3, 2, 1]).unwrap();
    let result2 = tensor2
        .reshape(&nn_rs::shape::reduce_shape(tensor2.shape()))
        .unwrap();
    assert_eq!(result2.shape(), &vec![3, 2]);
    assert_eq!(tensor2.squeeze(2).unwrap().shape(), &vec![3, 2]);

    let mat3 = Tensor::new(vec![1.0f32], &[1]).unwrap();
    let result3 = mat3
        .reshape(&nn_rs::shape::reduce_shape(mat3.shape()))
        .unwrap();
    assert_eq!(result3.shape(), &vec![1]);
}

#[test]
fn tensor_mean() {
    let tensor = Tensor::new(vec![1.0f32, 2.0, 3.0, 4.0], &[4, 1]).unwrap();
    let sum = tensor.reduce(0.0, |a, b| a + b);
    let mean = sum / tensor.numel() as f32;
    assert_eq!(mean, 2.5);
}

#[test]
fn tensor_square() {
    let tensor = Tensor::new(vec![1.0f32, 2.0, 3.0, 4.0], &[2, 2]).unwrap();
    let result = tensor.map(|x| x * x);
    let expected_data = vec![1.0, 4.0, 9.0, 16.0];
    for i in 0..2 {
        for j in 0..2 {
            assert_eq!(result.get(&[i, j]).unwrap(), expected_data[i * 2 + j]);
        }
    }
}

#[test]
fn tensor_argmax() {
    let tensor = Tensor::new(vec![1.0f32, 2.0, 5.0, 4.0], &[4, 1]).unwrap();
    let argmax = tensor.argmax_axis(0, f32::MIN, |a, b| a > b).unwrap();
    assert_eq!(argmax, vec![2]);
}

#[test]
fn tensor_log() {
    let data: Vec<f32> = vec![1.0, 2.0, 3.0, 4.0];
    let tensor = Tensor::new(data.clone(), &[2, 2]).unwrap();
    let result = tensor.map(|x: f32| x.ln());
    let expected_data = data.iter().map(|&x| x.ln()).collect::<Vec<_>>();
    for i in 0..2 {
        for j in 0..2 {
            assert_eq!(result.get(&[i, j]).unwrap(), expected_data[i * 2 + j]);
        }
    }
}

#[test]
fn tensor_abs() {
    let tensor = Tensor::new(vec![-1.0f32, -2.0, 3.0, -4.0], &[2, 2]).unwrap();
    let result = tensor.map(|x: f32| x.abs());
    let expected_data = vec![1.0, 2.0, 3.0, 4.0];
    for i in 0..2 {
        for j in 0..2 {
            assert_eq!(result.get(&[i, j]).unwrap(), expected_data[i * 2 + j]);
        }
    }
}
