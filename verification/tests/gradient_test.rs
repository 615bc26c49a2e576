use nn_rs::error::TensorError;
use nn_rs::graph::Graph;
use nn_rs::shape::reduce_shape;
use nn_rs::tensor::Tensor;

fn plus(a: f32, b: f32) -> f32 {
    a + b
}

fn times(a: f32, b: f32) -> f32 {
    a * b
}

fn run_backward(graph: &mut Graph<f32>, root: usize) -> Result<(), TensorError> {
    graph.backward(root, 1.0, 0.0, plus, times)
}

#[test]
fn test_broadcast_add_grad() {
    let mut g: Graph<f32> = Graph::new();
    let a = g.with_grad(vec![1.0, 2.0, 3.0, 4.0, 5.0, 6.0], &[3, 2]).unwrap();
    let b = g.with_grad(vec![7.0, 8.0, 9.0], &[3, 1]).unwrap();

    let c = g.broadcast_add(a, b, plus).unwrap();

    let loss = g.sum(c, 0.0, plus).unwrap();
    run_backward(&mut g, loss).unwrap();

    let grad_a = g.grad(a).unwrap();
    let grad_b = g.grad(b).unwrap();

    let expected_grad_a = [1.0, 1.0, 1.0, 1.0, 1.0, 1.0];
    let expected_grad_b = [2.0, 2.0, 2.0];

    assert_eq!(grad_a.shape(), &vec![3, 2]);
    assert_eq!(grad_b.shape(), &vec![3, 1]);
    assert_eq!(grad_a.as_slice().unwrap(), &expected_grad_a[..]);
    assert_eq!(grad_b.as_slice().unwrap(), &expected_grad_b[..]);
}

#[test]
fn test_sub_grad() {
    let mut g: Graph<f32> = Graph::new();
    let a = g.with_grad(vec![10.0, 20.0, 30.0, 40.0], &[2, 2]).unwrap();
    let b = g.with_grad(vec![1.0, 2.0, 3.0, 4.0], &[2, 2]).unwrap();

    let c = g.binary(a, b, |x, y| x - y, |_, _| 1.0, |_, _| -1.0).unwrap();
    assert_eq!(
        g.value(c).unwrap().as_slice().unwrap(),
        &[9.0, 18.0, 27.0, 36.0][..]
    );

    let loss = g.sum(c, 0.0, plus).unwrap();
    run_backward(&mut g, loss).unwrap();

    let grad_a = g.grad(a).unwrap();
    let grad_b = g.grad(b).unwrap();

    let expected_grad_a = [1.0, 1.0, 1.0, 1.0];
    let expected_grad_b = [-1.0, -1.0, -1.0, -1.0];

    assert_eq!(grad_a.shape(), &vec![2, 2]);
    assert_eq!(grad_b.shape(), &vec![2, 2]);
    assert_eq!(grad_a.as_slice().unwrap(), &expected_grad_a[..]);
    assert_eq!(grad_b.as_slice().unwrap(), &expected_grad_b[..]);
}

#[test]
fn test_matmul_grad() {
    let mut g: Graph<f32> = Graph::new();
    let a = g.with_grad(vec![1.0, 2.0, 3.0, 4.0], &[2, 2]).unwrap();
    let b = g.with_grad(vec![5.0, 6.0, 7.0, 8.0], &[2, 2]).unwrap();

    let c = g.matmul(a, b, 0.0, times, plus).unwrap();

    let loss = g.sum(c, 0.0, plus).unwrap();
    run_backward(&mut g, loss).unwrap();

    let grad_a = g.grad(a).unwrap();
    let grad_b = g.grad(b).unwrap();

    let expected_grad_a = [11.0, 15.0, 11.0, 15.0];
    let expected_grad_b = [4.0, 4.0, 6.0, 6.0];

    assert_eq!(grad_a.shape(), &vec![2, 2]);
    assert_eq!(grad_b.shape(), &vec![2, 2]);
    assert_eq!(grad_a.as_slice().unwrap(), &expected_grad_a[..]);
    assert_eq!(grad_b.as_slice().unwrap(), &expected_grad_b[..]);
}

#[test]
fn test_mean_scalar_grad() {
    let mut g: Graph<f32> = Graph::new();
    let a = g.with_grad(vec![1.0, 2.0, 3.0, 4.0], &[2, 2]).unwrap();
    let mean = g
        .mean(a, &[0, 1], 0.0, plus, |s, n| s / n as f32, |n| 1.0 / n as f32)
        .unwrap();
    assert_eq!(g.value(mean).unwrap().as_scalar(), Some(2.5));
    run_backward(&mut g, mean).unwrap();
    let grad_a = g.grad(a).unwrap();
    let expected_grad_a = [0.25, 0.25, 0.25, 0.25];
    assert_eq!(reduce_shape(grad_a.shape()), vec![2, 2]);
    assert_eq!(grad_a.as_slice().unwrap(), &expected_grad_a[..]);
}

#[test]
fn test_pow_grad() {
    let mut g: Graph<f32> = Graph::new();
    let base = g.with_grad(vec![2.0, 3.0, 4.0], &[3]).unwrap();
    let exponent = 3.0;
    let pow = g
        .unary(
            base,
            |x: f32| x.powf(exponent),
            |x: f32| exponent * x.powf(exponent - 1.0),
        )
        .unwrap();
    run_backward(&mut g, pow).unwrap();
    let grad_base = g.grad(base).unwrap();
    let expected_grad_base = [12.0, 27.0, 48.0];
    assert_eq!(grad_base.shape(), &vec![3]);
    assert_eq!(grad_base.as_slice().unwrap(), &expected_grad_base[..]);
}

#[test]
fn a_parameter_used_twice_gets_both_shares() {
    let mut g: Graph<f32> = Graph::new();
    let p = g.with_grad(vec![1.5, -2.0, 4.0], &[3]).unwrap();
    let y = g.binary(p, p, times, |_, b| b, |a, _| a).unwrap();
    let loss = g.sum(y, 0.0, plus).unwrap();
    run_backward(&mut g, loss).unwrap();
    let grad = g.grad(p).unwrap();
    assert_eq!(grad.shape(), &vec![3]);
    assert_eq!(grad.as_slice().unwrap(), &[3.0, -4.0, 8.0][..]);
}

#[test]
fn a_shared_result_is_visited_once() {
    let mut g: Graph<f32> = Graph::new();
    let x = g.with_grad(vec![1.0, 2.0], &[2]).unwrap();
    let h = g.unary(x, |v| v * 2.0, |_| 2.0).unwrap();
    let left = g.unary(h, |v| v + 1.0, |_| 1.0).unwrap();
    let right = g.unary(h, |v| v * 3.0, |_| 3.0).unwrap();
    let joined = g.broadcast_add(left, right, plus).unwrap();
    let order = g.build_topo(joined).unwrap();
    assert_eq!(g.build_topo(99), Err(TensorError::IndexOutOfBounds));
    assert_eq!(order, vec![x, h, left, right, joined]);
    run_backward(&mut g, joined).unwrap();
    assert_eq!(g.grad(h).unwrap().as_slice().unwrap(), &[4.0, 4.0][..]);
    assert_eq!(g.grad(x).unwrap().as_slice().unwrap(), &[8.0, 8.0][..]);
}

#[test]
fn zero_grad_then_backward_gives_the_same_gradient() {
    let mut g: Graph<f32> = Graph::new();
    let a = g.with_grad(vec![1.0, 2.0, 3.0, 4.0], &[2, 2]).unwrap();
    let b = g.with_grad(vec![5.0, 6.0, 7.0, 8.0], &[2, 2]).unwrap();
    let c = g.matmul(a, b, 0.0, times, plus).unwrap();
    let loss = g.sum(c, 0.0, plus).unwrap();
    run_backward(&mut g, loss).unwrap();
    let first: Vec<f32> = g.grad(a).unwrap().as_slice().unwrap().to_vec();
    for id in 0..g.node_count() {
        g.zero_grad(id);
        assert!(g.grad(id).is_none());
    }
    run_backward(&mut g, loss).unwrap();
    let second: Vec<f32> = g.grad(a).unwrap().as_slice().unwrap().to_vec();
    assert_eq!(first, second);
    assert_eq!(second, vec![11.0, 15.0, 11.0, 15.0]);
}

#[test]
fn backward_twice_accumulates() {
    let mut g: Graph<f32> = Graph::new();
    let a = g.with_grad(vec![1.0, 2.0], &[2]).unwrap();
    let y = g.unary(a, |v| v * v, |v| 2.0 * v).unwrap();
    let loss = g.sum(y, 0.0, plus).unwrap();
    run_backward(&mut g, loss).unwrap();
    assert_eq!(g.grad(a).unwrap().as_slice().unwrap(), &[2.0, 4.0][..]);
    run_backward(&mut g, loss).unwrap();
    assert_eq!(g.grad(a).unwrap().as_slice().unwrap(), &[6.0, 12.0][..]);
    assert_eq!(g.grad(loss).unwrap().as_slice().unwrap(), &[1.0][..]);
}

#[test]
fn backward_needs_a_gradient_path() {
    let mut g: Graph<f32> = Graph::new();
    let a = g.new_tensor(vec![1.0, 2.0], &[2]).unwrap();
    let y = g.unary(a, |v| v + 1.0, |_| 1.0).unwrap();
    assert!(!g.requires_grad(y));
    assert_eq!(run_backward(&mut g, y), Err(TensorError::NoGradientPath));
    assert_eq!(run_backward(&mut g, a), Err(TensorError::NoGradientPath));
    assert_eq!(run_backward(&mut g, 7), Err(TensorError::IndexOutOfBounds));
    assert!(g.grad(a).is_none());
    assert!(g.grad(y).is_none());
}

#[test]
fn untracked_operands_receive_nothing() {
    let mut g: Graph<f32> = Graph::new();
    let w = g.with_grad(vec![1.0, 2.0, 3.0, 4.0], &[2, 2]).unwrap();
    let x = g.new_tensor(vec![1.0, 1.0], &[2]).unwrap();
    let y = g.matmul(w, x, 0.0, times, plus).unwrap();
    assert!(g.requires_grad(y));
    let loss = g.sum(y, 0.0, plus).unwrap();
    run_backward(&mut g, loss).unwrap();
    assert!(g.grad(x).is_none());
    assert_eq!(g.grad(w).unwrap().as_slice().unwrap(), &[1.0, 1.0, 1.0, 1.0][..]);
    assert_eq!(g.grad(w).unwrap().shape(), g.value(w).unwrap().shape());
}

#[test]
fn results_without_tracked_operands_keep_no_history() {
    let mut g: Graph<f32> = Graph::new();
    let a = g.new_tensor(vec![1.0, 2.0], &[2]).unwrap();
    let b = g.new_tensor(vec![3.0, 4.0], &[2]).unwrap();
    let c = g.binary(a, b, times, |_, y| y, |x, _| x).unwrap();
    assert!(!g.requires_grad(c));
    assert!(g.grad_fns[c].is_none());
    assert!(g.parents[c].is_empty());
    let d = g.with_grad(vec![1.0, 1.0], &[2]).unwrap();
    let e = g.binary(c, d, times, |_, y| y, |x, _| x).unwrap();
    assert!(g.requires_grad(e));
    assert_eq!(g.parents[e], vec![c, d]);
}

#[test]
fn stubbed_rules_are_refused() {
    let mut g: Graph<f32> = Graph::new();
    let a = g.with_grad(vec![1.0, 2.0, 3.0, 4.0], &[2, 2]).unwrap();
    let top = g.slice(a, 0, 0, 1).unwrap();
    let loss = g.sum(top, 0.0, plus).unwrap();
    assert_eq!(
        run_backward(&mut g, loss),
        Err(TensorError::GradientNotImplemented)
    );
    assert!(g.grad(loss).is_none());
    assert!(g.grad(a).is_none());
    let picked = g.gather(a, 1, &[1, 1, 0]).unwrap();
    assert_eq!(
        g.value(picked).unwrap().as_slice().unwrap(),
        &[2.0, 2.0, 1.0, 4.0, 4.0, 3.0][..]
    );
    assert_eq!(
        run_backward(&mut g, picked),
        Err(TensorError::GradientNotImplemented)
    );
}

#[test]
fn detach_cuts_the_history() {
    let mut g: Graph<f32> = Graph::new();
    let a = g.with_grad(vec![1.0, 2.0], &[2]).unwrap();
    let h = g.unary(a, |v| v * 2.0, |_| 2.0).unwrap();
    let y = g.unary(h, |v| v * 5.0, |_| 5.0).unwrap();
    g.detach(h);
    assert!(g.parents[h].is_empty());
    run_backward(&mut g, y).unwrap();
    assert_eq!(g.grad(h).unwrap().as_slice().unwrap(), &[5.0, 5.0][..]);
    assert!(g.grad(a).is_none());
}

#[test]
fn transpose_and_reshape_pass_gradients_back() {
    let mut g: Graph<f32> = Graph::new();
    let a = g.with_grad(vec![1.0, 2.0, 3.0, 4.0, 5.0, 6.0], &[2, 3]).unwrap();
    let w = g.new_tensor(vec![1.0, 10.0, 100.0, 1000.0, 10000.0, 100000.0], &[3, 2]).unwrap();
    let t = g.transpose(a).unwrap();
    let y = g.binary(t, w, times, |_, b| b, |x, _| x).unwrap();
    run_backward(&mut g, y).unwrap();
    let grad = g.grad(a).unwrap();
    assert_eq!(grad.shape(), &vec![2, 3]);
    assert_eq!(
        grad.as_slice().unwrap(),
        &[1.0, 100.0, 10000.0, 10.0, 1000.0, 100000.0][..]
    );

    let mut g: Graph<f32> = Graph::new();
    let a = g.with_grad(vec![1.0, 2.0, 3.0, 4.0, 5.0, 6.0], &[2, 3]).unwrap();
    let flat = g.reshape(a, &[6]).unwrap();
    let y = g.unary(flat, |v| v * v, |v| 2.0 * v).unwrap();
    run_backward(&mut g, y).unwrap();
    let grad = g.grad(a).unwrap();
    assert_eq!(grad.shape(), &vec![2, 3]);
    assert_eq!(grad.as_slice().unwrap(), &[2.0, 4.0, 6.0, 8.0, 10.0, 12.0][..]);
}

#[test]
fn sum_along_an_axis_spreads_the_gradient() {
    let mut g: Graph<f32> = Graph::new();
    let a = g.with_grad(vec![1.0, 2.0, 3.0, 4.0, 5.0, 6.0], &[2, 3]).unwrap();
    let s = g.sum_axis(a, &[1], 0.0, plus).unwrap();
    assert_eq!(g.value(s).unwrap().shape(), &vec![2, 1]);
    assert_eq!(g.value(s).unwrap().as_slice().unwrap(), &[6.0, 15.0][..]);
    let w = g.new_tensor(vec![10.0, 20.0], &[2, 1]).unwrap();
    let y = g.binary(s, w, times, |_, b| b, |x, _| x).unwrap();
    run_backward(&mut g, y).unwrap();
    assert_eq!(
        g.grad(a).unwrap().as_slice().unwrap(),
        &[10.0, 10.0, 10.0, 20.0, 20.0, 20.0][..]
    );
}

#[test]
fn matmul_with_vectors_brings_gradients_to_operand_shapes() {
    let mut g: Graph<f32> = Graph::new();
    let w = g.with_grad(vec![1.0, 2.0, 3.0, 4.0], &[2, 2]).unwrap();
    let x = g.with_grad(vec![5.0, 6.0], &[2]).unwrap();
    let y = g.matmul(w, x, 0.0, times, plus).unwrap();
    assert_eq!(g.value(y).unwrap().as_slice().unwrap(), &[17.0, 39.0][..]);
    run_backward(&mut g, y).unwrap();
    assert_eq!(g.grad(w).unwrap().shape(), &vec![2, 2]);
    assert_eq!(g.grad(w).unwrap().as_slice().unwrap(), &[5.0, 6.0, 5.0, 6.0][..]);
    assert_eq!(g.grad(x).unwrap().shape(), &vec![2]);
    assert_eq!(g.grad(x).unwrap().as_slice().unwrap(), &[4.0, 6.0][..]);
}

#[test]
fn scalar_division_checks_the_divisor() {
    let t = Tensor::new(vec![1.0f32, 2.0, 3.0, 4.0], &[2, 2]).unwrap();
    let half = t.div_scalar(2.0, |s| s == 0.0, |a, b| a / b).unwrap();
    assert_eq!(half.as_slice().unwrap(), &[0.5, 1.0, 1.5, 2.0][..]);
    assert!(matches!(
        t.div_scalar(0.0, |s| s == 0.0, |a, b| a / b),
        Err(TensorError::DivisionByZero)
    ));

    let mut g: Graph<f32> = Graph::new();
    let a = g.with_grad(vec![1.0, 2.0], &[2]).unwrap();
    assert_eq!(
        g.div_scalar(a, 0.0, |s| s == 0.0, |x, y| x / y, |s| 1.0 / s),
        Err(TensorError::DivisionByZero)
    );
    assert_eq!(g.node_count(), 1);
    let q = g.div_scalar(a, 4.0, |s| s == 0.0, |x, y| x / y, |s| 1.0 / s).unwrap();
    run_backward(&mut g, q).unwrap();
    assert_eq!(g.grad(a).unwrap().as_slice().unwrap(), &[0.25, 0.25][..]);
}

#[test]
fn error_scenarios() {
    let mut g: Graph<f32> = Graph::new();
    let a = g.new_tensor(vec![1.0, 2.0, 3.0], &[3]).unwrap();
    let b = g.new_tensor(vec![1.0, 2.0], &[2]).unwrap();
    assert_eq!(g.broadcast_add(a, b, plus), Err(TensorError::ShapeMismatch));
    assert_eq!(g.broadcast_add(a, 9, plus), Err(TensorError::IndexOutOfBounds));
    assert_eq!(g.new_tensor(vec![1.0], &[2]), Err(TensorError::ShapeMismatch));
    assert_eq!(g.node_count(), 2);
    assert_eq!(run_backward(&mut g, a), Err(TensorError::NoGradientPath));
}

#[test]
fn a_broadcast_view_sums_its_gradient_back() {
    let mut g: Graph<f32> = Graph::new();
    let b = g.with_grad(vec![7.0, 8.0, 9.0], &[3, 1]).unwrap();
    let wide = g.broadcast(b, &[3, 2]).unwrap();
    assert_eq!(g.value(wide).unwrap().strides(), &vec![1, 0]);
    let w = g.new_tensor(vec![1.0, 2.0, 3.0, 4.0, 5.0, 6.0], &[3, 2]).unwrap();
    let y = g.binary(wide, w, times, |_, v| v, |u, _| u).unwrap();
    assert_eq!(
        g.value(y).unwrap().as_slice().unwrap(),
        &[7.0, 14.0, 24.0, 32.0, 45.0, 54.0][..]
    );
    run_backward(&mut g, y).unwrap();
    let grad = g.grad(b).unwrap();
    assert_eq!(grad.shape(), &vec![3, 1]);
    assert_eq!(grad.as_slice().unwrap(), &[3.0, 7.0, 11.0][..]);
    assert_eq!(g.broadcast(b, &[2, 3]), Err(TensorError::NotBroadcastable));
    assert_eq!(g.broadcast(40, &[2, 3]), Err(TensorError::IndexOutOfBounds));
}

#[test]
fn unit_dimensions_come_and_go() {
    let mut g: Graph<f32> = Graph::new();
    let a = g.with_grad(vec![1.0, 2.0, 3.0], &[3]).unwrap();
    let row = g.unsqueeze(a, 0).unwrap();
    assert_eq!(g.value(row).unwrap().shape(), &vec![1, 3]);
    let w = g.new_tensor(vec![1.0, 2.0, 3.0, 4.0, 5.0, 6.0], &[3, 2]).unwrap();
    let y = g.matmul(row, w, 0.0, times, plus).unwrap();
    assert_eq!(g.value(y).unwrap().shape(), &vec![1, 2]);
    let flat = g.squeeze(y, 0).unwrap();
    assert_eq!(g.value(flat).unwrap().shape(), &vec![2]);
    assert_eq!(g.value(flat).unwrap().as_slice().unwrap(), &[22.0, 28.0][..]);
    run_backward(&mut g, flat).unwrap();
    assert_eq!(g.grad(a).unwrap().shape(), &vec![3]);
    assert_eq!(g.grad(a).unwrap().as_slice().unwrap(), &[3.0, 7.0, 11.0][..]);
    assert_eq!(g.squeeze(a, 0), Err(TensorError::ShapeMismatch));
    assert_eq!(g.squeeze(a, 1), Err(TensorError::IndexOutOfBounds));
    assert_eq!(g.unsqueeze(a, 2), Err(TensorError::IndexOutOfBounds));
}

#[test]
fn writes_do_not_show_through_views() {
    let mut m = Tensor::new(vec![1.0f32, 2.0, 3.0, 4.0], &[2, 2]).unwrap();
    let turned = m.transpose().unwrap();
    let copy = m.duplicate();
    let wide = m.broadcast_to(&[3, 2, 2]).unwrap();
    m.set(&[0, 1], 9.0).unwrap();
    assert_eq!(m.as_slice().unwrap(), &[1.0, 9.0, 3.0, 4.0][..]);
    assert_eq!(turned.get(&[1, 0]).unwrap(), 2.0);
    assert_eq!(copy.as_slice().unwrap(), &[1.0, 2.0, 3.0, 4.0][..]);
    assert_eq!(wide.get(&[2, 0, 1]).unwrap(), 2.0);
    assert_eq!(turned.to_contiguous().as_slice().unwrap(), &[1.0, 3.0, 2.0, 4.0][..]);
}
