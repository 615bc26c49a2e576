use nn_rs::error::TensorError;
use nn_rs::graph::Graph;
use nn_rs::nn::{LogSoftmax, ReLU, Sigmoid, Softmax};
use nn_rs::tensor::Tensor;

fn plus(a: f32, b: f32) -> f32 {
    a + b
}

fn times(a: f32, b: f32) -> f32 {
    a * b
}

fn check_2x2(result: &Tensor<f32>, expected: &[f32]) {
    for i in 0..2 {
        for j in 0..2 {
            assert_eq!(result.get(&[i, j]).unwrap(), expected[i * 2 + j]);
        }
    }
}

fn close_2x2(result: &Tensor<f32>, expected: &[f32]) {
    for i in 0..2 {
        for j in 0..2 {
            assert!((result.get(&[i, j]).unwrap() - expected[i * 2 + j]).abs() < 1e-6);
        }
    }
}

#[test]
fn unary_op_test_test_neg() {
    let tensor = Tensor::new(vec![1.0f32, -2.0, 3.0, -4.0], &[2, 2]).unwrap();
    let result = tensor.map(|x| -x);
    check_2x2(&result, &[-1.0, 2.0, -3.0, 4.0]);
}

#[test]
fn unary_op_test_test_pow() {
    let tensor = Tensor::new(vec![1.0f32, 2.0, 3.0, 4.0], &[2, 2]).unwrap();
    let exponent = 3.0;
    let result = tensor.map(|x: f32| x.powf(exponent));
    check_2x2(&result, &[1.0, 8.0, 27.0, 64.0]);
}

#[test]
fn unary_op_test_test_square() {
    let tensor = Tensor::new(vec![1.0f32, -2.0, 3.0, -4.0], &[2, 2]).unwrap();
    let result = tensor.map(|x: f32| x.powf(2.0));
    check_2x2(&result, &[1.0, 4.0, 9.0, 16.0]);
}

#[test]
fn unary_op_test_test_abs() {
    let tensor = Tensor::new(vec![-1.0f32, -2.0, 3.0, -4.0], &[2, 2]).unwrap();
    let result = tensor.map(|x: f32| x.abs());
    check_2x2(&result, &[1.0, 2.0, 3.0, 4.0]);
}

#[test]
fn unary_op_test_test_clamp() {
    let tensor = Tensor::new(vec![-1.0f32, 0.5, 2.0, 3.5], &[2, 2]).unwrap();
    let min = 0.0;
    let max = 2.0;
    let result = tensor.map(|x: f32| {
        if x < min {
            min
        } else if x > max {
            max
        } else {
            x
        }
    });
    check_2x2(&result, &[0.0, 0.5, 2.0, 2.0]);
}

#[test]
fn unary_op_test_test_log() {
    let data = vec![
        1.0,
        std::f32::consts::E,
        std::f32::consts::E.powf(2.0),
        std::f32::consts::E.powf(3.0),
    ];
    let tensor = Tensor::new(data, &[2, 2]).unwrap();
    let result = tensor.map(|x: f32| x.ln());
    close_2x2(&result, &[0.0, 1.0, 2.0, 3.0]);
}

#[test]
fn unary_op_test_test_sqrt() {
    let tensor = Tensor::new(vec![1.0f32, 4.0, 9.0, 16.0], &[2, 2]).unwrap();
    let result = tensor.map(|x: f32| x.powf(0.5));
    close_2x2(&result, &[1.0, 2.0, 3.0, 4.0]);
}

#[test]
fn unary_op_test_test_exp() {
    let tensor = Tensor::new(vec![0.0f32, 1.0, 2.0], &[3]).unwrap();
    let result = tensor.map(|x: f32| x.exp());
    let expected_data = vec![1.0, std::f32::consts::E, std::f32::consts::E.powf(2.0)];
    for i in 0..3 {
        assert!((result.get(&[i]).unwrap() - expected_data[i]).abs() < 1e-6);
    }
}

#[test]
fn test_sign() {
    let tensor = Tensor::new(vec![-3.0f32, 0.0, 4.0], &[3]).unwrap();
    let result = tensor.map(|x: f32| {
        if x > 0.0 {
            1.0
        } else if x < 0.0 {
            -1.0
        } else {
            0.0
        }
    });
    let expected_data = vec![-1.0, 0.0, 1.0];
    assert_eq!(result.shape(), &vec![3]);
    for i in 0..3 {
        assert_eq!(result.get(&[i]).unwrap(), expected_data[i]);
    }
}

fn logistic(v: f32) -> f32 {
    1.0 / (1.0 + (-v).exp())
}

fn logistic_slope(v: f32) -> f32 {
    logistic(v) * (1.0 - logistic(v))
}

#[test]
fn test_sigmoid() {
    let mut g: Graph<f32> = Graph::new();
    let tensor = g.with_grad(vec![-2.0, -1.0, 0.0, 1.0, 2.0], &[5]).unwrap();
    let out = Sigmoid {}.forward(&mut g, tensor, logistic, logistic_slope).unwrap();
    let result = g.value(out).unwrap();
    let expected_data = vec![
        1.0 / (1.0 + 2.0f32.exp()),
        1.0 / (1.0 + 1.0f32.exp()),
        0.5,
        1.0 / (1.0 + (-1.0f32).exp()),
        1.0 / (1.0 + (-2.0f32).exp()),
    ];
    for i in 0..5 {
        assert!((result.get(&[i]).unwrap() - expected_data[i]).abs() < 1e-6);
    }
    g.backward(out, 1.0, 0.0, plus, times).unwrap();
    let grad = g.grad(tensor).unwrap();
    assert_eq!(grad.get(&[2]).unwrap(), 0.25);
    for i in 0..5 {
        let s = expected_data[i];
        assert!((grad.get(&[i]).unwrap() - s * (1.0 - s)).abs() < 1e-6);
    }
}

#[test]
fn test_relu() {
    let mut g: Graph<f32> = Graph::new();
    let tensor = g.with_grad(vec![-1.0, 0.0, 2.0, -3.0, 4.0], &[5]).unwrap();
    let out = ReLU {}
        .forward(
            &mut g,
            tensor,
            |v| if v < 0.0 { 0.0 } else { v },
            |v| if v > 0.0 { 1.0 } else { 0.0 },
        )
        .unwrap();
    let result = g.value(out).unwrap();
    let expected_data = vec![0.0, 0.0, 2.0, 0.0, 4.0];
    for i in 0..5 {
        assert_eq!(result.get(&[i]).unwrap(), expected_data[i]);
    }
    g.backward(out, 1.0, 0.0, plus, times).unwrap();
    assert_eq!(
        g.grad(tensor).unwrap().as_slice().unwrap(),
        &[0.0, 0.0, 1.0, 0.0, 1.0][..]
    );
    assert_eq!(
        ReLU {}.forward(&mut g, 17, |v| v, |_| 1.0),
        Err(TensorError::IndexOutOfBounds)
    );
}

fn softmax_nodes(g: &mut Graph<f32>, x: usize) -> usize {
    let top = g
        .value(x)
        .unwrap()
        .reduce(f32::NEG_INFINITY, |a: f32, b: f32| a.max(b));
    Softmax {}
        .forward(
            g,
            x,
            |v: f32| (v - top).exp(),
            |v: f32| (v - top).exp(),
            0.0,
            plus,
            |a, b| a / b,
            |_, b| 1.0 / b,
            |a, b| -a / (b * b),
        )
        .unwrap()
}

#[test]
fn test_softmax() {
    let data: Vec<f32> = vec![1.0, 2.0, 3.0];
    let mut g: Graph<f32> = Graph::new();
    let x = g.with_grad(data.clone(), &[3]).unwrap();
    let out = softmax_nodes(&mut g, x);
    let result = g.value(out).unwrap();
    let sum_exp: f32 = data.iter().map(|&x| x.exp()).sum();
    let expected_data: Vec<f32> = data.iter().map(|&x| x.exp() / sum_exp).collect();
    assert_eq!(
        result.shape().iter().product::<usize>(),
        expected_data.len()
    );
    for i in 0..3 {
        assert!((result.get(&[i]).unwrap() - expected_data[i]).abs() < 1e-6);
    }
}

#[test]
fn softmax_gradient_is_the_full_jacobian_product() {
    let data: Vec<f32> = vec![1.0, 2.0, 3.0];
    let upstream: Vec<f32> = vec![0.5, -1.0, 2.0];
    let mut g: Graph<f32> = Graph::new();
    let x = g.with_grad(data.clone(), &[3]).unwrap();
    let out = softmax_nodes(&mut g, x);
    let w = g.new_tensor(upstream.clone(), &[3]).unwrap();
    let weighted = g.binary(out, w, times, |_, b| b, |a, _| a).unwrap();
    let loss = g.sum(weighted, 0.0, plus).unwrap();
    g.backward(loss, 1.0, 0.0, plus, times).unwrap();
    let s: Vec<f32> = g.value(out).unwrap().as_slice().unwrap().to_vec();
    let dot: f32 = (0..3).map(|j| upstream[j] * s[j]).sum();
    let grad = g.grad(x).unwrap();
    assert_eq!(grad.shape(), &vec![3]);
    for i in 0..3 {
        let expected = upstream[i] * s[i] - s[i] * dot;
        assert!((grad.get(&[i]).unwrap() - expected).abs() < 1e-6);
    }
}

#[test]
fn test_log_softmax() {
    let data: Vec<f32> = vec![1.0, 2.0, 3.0];
    let mut g: Graph<f32> = Graph::new();
    let x = g.with_grad(data.clone(), &[3]).unwrap();
    let out = LogSoftmax {}
        .forward(
            &mut g,
            x,
            |v: f32| (v - 3.0).exp(),
            |v: f32| (v - 3.0).exp(),
            0.0,
            plus,
            |a, b| a / b,
            |_, b| 1.0 / b,
            |a, b| -a / (b * b),
            |v: f32| v.ln(),
            |v: f32| 1.0 / v,
        )
        .unwrap();
    assert_eq!(out, 4);
    let result = g.value(out).unwrap();
    let sum_exp: f32 = data.iter().map(|&x| x.exp()).sum();
    let expected_data: Vec<f32> = data.iter().map(|&x| (x.exp() / sum_exp).ln()).collect();
    for i in 0..3 {
        assert!((result.get(&[i]).unwrap() - expected_data[i]).abs() < 1e-6);
    }
    let picked = g.new_tensor(vec![0.0, 1.0, 0.0], &[3]).unwrap();
    let chosen = g.binary(out, picked, times, |_, b| b, |a, _| a).unwrap();
    let loss = g.sum(chosen, 0.0, plus).unwrap();
    g.backward(loss, 1.0, 0.0, plus, times).unwrap();
    let grad = g.grad(x).unwrap();
    let softmax: Vec<f32> = data.iter().map(|&x| x.exp() / sum_exp).collect();
    let expected_grad = [-softmax[0], 1.0 - softmax[1], -softmax[2]];
    for i in 0..3 {
        assert!((grad.get(&[i]).unwrap() - expected_grad[i]).abs() < 1e-6);
    }
    assert_eq!(
        Softmax {}.forward(
            &mut g,
            77,
            |v: f32| v.exp(),
            |v: f32| v.exp(),
            0.0,
            plus,
            |a, b| a / b,
            |_, b| 1.0 / b,
            |a, b| -a / (b * b),
        ),
        Err(TensorError::IndexOutOfBounds)
    );
}

#[test]
fn a_single_step_of_the_pass() {
    let mut g: Graph<f32> = Graph::new();
    let a = g.with_grad(vec![1.0, 2.0], &[2]).unwrap();
    let b = g.new_tensor(vec![3.0, 4.0], &[2]).unwrap();
    let y = g.binary(a, b, times, |_, v| v, |u, _| u).unwrap();
    assert_eq!(g.propagate(y, 0.0, plus, times), Ok(()));
    assert!(g.grad(a).is_none());
    g.grads[y] = Some(Tensor::new(vec![10.0, 100.0], &[2]).unwrap());
    assert_eq!(g.propagate(y, 0.0, plus, times), Ok(()));
    assert_eq!(g.grad(a).unwrap().as_slice().unwrap(), &[30.0, 400.0][..]);
    assert!(g.grad(b).is_none());
    assert_eq!(g.propagate(y, 0.0, plus, times), Ok(()));
    assert_eq!(g.grad(a).unwrap().as_slice().unwrap(), &[60.0, 800.0][..]);
    assert_eq!(g.propagate(a, 0.0, plus, times), Ok(()));
    assert_eq!(
        g.propagate(5, 0.0, plus, times),
        Err(TensorError::IndexOutOfBounds)
    );
    let cut = g.slice(a, 0, 0, 1).unwrap();
    assert_eq!(
        g.propagate(cut, 0.0, plus, times),
        Err(TensorError::GradientNotImplemented)
    );
}

#[test]
fn released_graphs_keep_their_gradients() {
    let mut g: Graph<f32> = Graph::new();
    let a = g.with_grad(vec![1.0, 2.0], &[2]).unwrap();
    let other = g.with_grad(vec![1.0], &[1]).unwrap();
    let aside = g.unary(other, |v| v + 1.0, |_| 1.0).unwrap();
    let h = g.unary(a, |v| v * 2.0, |_| 2.0).unwrap();
    let y = g.sum(h, 0.0, plus).unwrap();
    g.backward_with_options(y, false, 1.0, 0.0, plus, times).unwrap();
    assert_eq!(g.grad(a).unwrap().as_slice().unwrap(), &[2.0, 2.0][..]);
    assert!(g.grad_fns[h].is_none());
    assert!(g.parents[h].is_empty());
    assert!(g.parents[y].is_empty());
    assert_eq!(g.parents[aside], vec![other]);
    assert!(g.grad_fns[aside].is_some());
    g.backward_with_options(y, true, 1.0, 0.0, plus, times).unwrap();
    assert_eq!(g.grad(a).unwrap().as_slice().unwrap(), &[2.0, 2.0][..]);
    assert_eq!(g.grad(y).unwrap().as_scalar(), Some(1.0));
}

#[test]
fn values_can_be_written_in_place() {
    let mut g: Graph<f32> = Graph::new();
    let a = g.with_grad(vec![1.0, 2.0, 3.0, 4.0], &[2, 2]).unwrap();
    assert_eq!(g.set(a, &[1, 0], 9.0), Ok(()));
    assert_eq!(
        g.value(a).unwrap().as_slice().unwrap(),
        &[1.0, 2.0, 9.0, 4.0][..]
    );
    assert_eq!(g.set(a, &[2, 0], 9.0), Err(TensorError::IndexOutOfBounds));
    assert_eq!(g.set(3, &[0, 0], 9.0), Err(TensorError::IndexOutOfBounds));
    g.clear_graph(a);
    g.clear_graph(8);
    assert!(g.requires_grad(a));
}
