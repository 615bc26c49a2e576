use nn_rs::error::TensorError;
use nn_rs::tensor::Tensor;

fn check_2x2(result: &Tensor<f32>, expected: &[f32]) {
    for i in 0..2 {
        for j in 0..2 {
            assert_eq!(result.get(&[i, j]).unwrap(), expected[i * 2 + j]);
        }
    }
}

#[test]
fn test_add() {
    let tensor1 = Tensor::new(vec![1.0f32, 2.0, 3.0, 4.0], &[2, 2]).unwrap();
    let tensor2 = Tensor::new(vec![5.0f32, 6.0, 7.0, 8.0], &[2, 2]).unwrap();
    let result = tensor1.zip_with(&tensor2, |a, b| a + b).unwrap();
    check_2x2(&result, &[6.0, 8.0, 10.0, 12.0]);
}

#[test]
fn test_sub() {
    let tensor1 = Tensor::new(vec![5.0f32, 6.0, 7.0, 8.0], &[2, 2]).unwrap();
    let tensor2 = Tensor::new(vec![1.0f32, 2.0, 3.0, 4.0], &[2, 2]).unwrap();
    let result = tensor1.zip_with(&tensor2, |a, b| a - b).unwrap();
    check_2x2(&result, &[4.0, 4.0, 4.0, 4.0]);
}

#[test]
fn test_scalar_mul() {
    let tensor = Tensor::new(vec![1.0f32, 2.0, 3.0, 4.0], &[2, 2]).unwrap();
    let scalar = 3.0;
    let result = tensor.map(|x| x * scalar);
    check_2x2(&result, &[3.0, 6.0, 9.0, 12.0]);
}

#[test]
fn test_mul_ews() {
    let tensor = Tensor::new(vec![1.0f32, 2.0, 3.0, 4.0], &[2, 2]).unwrap();
    let result = tensor.duplicate().zip_with(&tensor, |a, b| a * b).unwrap();
    check_2x2(&result, &[1.0, 4.0, 9.0, 16.0]);
}

#[test]
fn test_scalar_sub() {
    let tensor = Tensor::new(vec![1.0f32, 2.0, 3.0, 4.0], &[2, 2]).unwrap();
    let scalar = 10.0;
    let result = tensor.map(|x| scalar - x);
    check_2x2(&result, &[9.0, 8.0, 7.0, 6.0]);
}

#[test]
fn test_sub_scalar() {
    let tensor = Tensor::new(vec![1.0f32, 2.0, 3.0, 4.0], &[2, 2]).unwrap();
    let scalar = 10.0;
    let result = tensor.map(|x| x - scalar);
    check_2x2(&result, &[-9.0, -8.0, -7.0, -6.0]);
}

#[test]
fn test_scalar_div() {
    let tensor = Tensor::new(vec![2.0f32, 4.0, 8.0, 16.0], &[2, 2]).unwrap();
    let scalar = 32.0;
    let result = tensor.map(|x| scalar / x);
    check_2x2(&result, &[16.0, 8.0, 4.0, 2.0]);
}

#[test]
fn test_scalar_add() {
    let tensor = Tensor::new(vec![1.0f32, 2.0, 3.0, 4.0], &[2, 2]).unwrap();
    let scalar = 10.0;
    let result = tensor.map(|x| scalar + x);
    check_2x2(&result, &[11.0, 12.0, 13.0, 14.0]);
}

#[test]
fn test_add_scalar() {
    let tensor = Tensor::new(vec![1.0f32, 2.0, 3.0, 4.0], &[2, 2]).unwrap();
    let scalar = 10.0;
    let result = tensor.map(|x| x + scalar);
    check_2x2(&result, &[11.0, 12.0, 13.0, 14.0]);
}

#[test]
fn test_div() {
    let tensor1 = Tensor::new(vec![8.0f32, 16.0, 32.0, 64.0], &[2, 2]).unwrap();
    let tensor2 = Tensor::new(vec![2.0f32, 4.0, 8.0, 16.0], &[2, 2]).unwrap();
    let result = tensor1.zip_with(&tensor2, |a, b| a / b).unwrap();
    check_2x2(&result, &[4.0, 4.0, 4.0, 4.0]);
}

#[test]
fn test_div_scalar() {
    let tensor = Tensor::new(vec![2.0f32, 4.0, 8.0, 16.0], &[2, 2]).unwrap();
    let scalar = 2.0;
    let result = tensor.map(|x| x / scalar);
    check_2x2(&result, &[1.0, 2.0, 4.0, 8.0]);
}

#[test]
fn test_broadcast_add() {
    let tensor1 = Tensor::new(vec![1.0f32, 2.0, 3.0, 4.0, 5.0, 6.0], &[2, 3]).unwrap();
    let tensor2 = Tensor::new(vec![10.0f32, 20.0, 30.0], &[3]).unwrap();
    let result = tensor1.zip_with(&tensor2, |a, b| a + b).unwrap();
    let expected_data = vec![11.0, 22.0, 33.0, 14.0, 25.0, 36.0];
    assert_eq!(result.shape(), &vec![2, 3]);
    for i in 0..2 {
        for j in 0..3 {
            assert_eq!(result.get(&[i, j]).unwrap(), expected_data[i * 3 + j]);
        }
    }
}

#[test]
fn test_broadcast_add_full() {
    let tensor1 = Tensor::new(vec![1.0f32, 2.0, 3.0, 4.0, 5.0, 6.0], &[2, 3]).unwrap();
    let tensor2 = Tensor::new(vec![10.0f32, 20.0, 30.0], &[1, 3]).unwrap();
    let result = tensor1.zip_with(&tensor2, |a, b| a + b).unwrap();
    let expected_data = vec![11.0, 22.0, 33.0, 14.0, 25.0, 36.0];
    for i in 0..2 {
        for j in 0..3 {
            assert_eq!(result.get(&[i, j]).unwrap(), expected_data[i * 3 + j]);
        }
    }
}

#[test]
fn test_broadcast_add_3d() {
    let tensor1 =
        Tensor::new(vec![1.0f32, 2.0, 3.0, 4.0, 5.0, 6.0, 7.0, 8.0], &[2, 2, 2]).unwrap();
    let tensor2 = Tensor::new(vec![10.0f32, 20.0], &[1, 2, 1]).unwrap();
    let result = tensor1.zip_with(&tensor2, |a, b| a + b).unwrap();
    let expected_data = vec![11., 12., 23., 24., 15., 16., 27., 28.];
    for i in 0..2 {
        for j in 0..2 {
            for k in 0..2 {
                assert_eq!(
                    result.get(&[i, j, k]).unwrap(),
                    expected_data[i * 4 + j * 2 + k]
                );
            }
        }
    }
}

#[test]
fn mismatched_shapes_are_refused() {
    let a = Tensor::new(vec![1.0f32, 2.0, 3.0], &[3]).unwrap();
    let b = Tensor::new(vec![1.0f32, 2.0], &[2]).unwrap();
    assert!(matches!(a.zip_with(&b, |x, y| x + y), Err(TensorError::ShapeMismatch)));
    assert!(matches!(b.zip_with(&a, |x, y| x * y), Err(TensorError::ShapeMismatch)));
}

#[test]
fn both_operands_may_be_expanded() {
    let column = Tensor::new(vec![1.0f32, 2.0, 3.0], &[3, 1]).unwrap();
    let row = Tensor::new(vec![10.0f32, 20.0], &[1, 2]).unwrap();
    let result = column.zip_with(&row, |a, b| a + b).unwrap();
    assert_eq!(result.shape(), &vec![3, 2]);
    assert_eq!(
        result.as_slice().unwrap(),
        &[11.0, 21.0, 12.0, 22.0, 13.0, 23.0][..]
    );
}

#[test]
fn zip_reads_through_views() {
    let m = Tensor::new(vec![1.0f32, 2.0, 3.0, 4.0], &[2, 2]).unwrap();
    let t = m.transpose().unwrap();
    let result = m.zip_with(&t, |a, b| a - b).unwrap();
    assert_eq!(result.as_slice().unwrap(), &[0.0, -1.0, 1.0, 0.0][..]);
}
