use neuro::activation::Activation;
use neuro::matrix::{Matrix, Scalar};
use neuro::network::{Network, NetworkError};
use std::sync::atomic::{AtomicU64, Ordering};

static SEED: AtomicU64 = AtomicU64::new(42);

#[derive(Clone, Copy, Debug, PartialEq)]
struct Real(f64);

impl Scalar for Real {
    fn spec_zero() -> Self {
        Self::zero()
    }

    fn spec_plus(self, other: Self) -> Self {
        self.plus(other)
    }

    fn spec_minus(self, other: Self) -> Self {
        self.minus(other)
    }

    fn spec_times(self, other: Self) -> Self {
        self.times(other)
    }

    fn zero() -> Self {
        Real(0.0)
    }
    fn plus(self, other: Self) -> Self {
        Real(self.0 + other.0)
    }
    fn minus(self, other: Self) -> Self {
        Real(self.0 - other.0)
    }
    fn times(self, other: Self) -> Self {
        Real(self.0 * other.0)
    }
    fn unit_random() -> Self {
        let mut x = SEED.load(Ordering::Relaxed);
        x = x.wrapping_mul(6364136223846793005).wrapping_add(1442695040888963407);
        SEED.store(x, Ordering::Relaxed);
        Real((x >> 11) as f64 / (1u64 << 53) as f64)
    }
}

struct Sigmoid;

impl Activation<Real> for Sigmoid {
    fn spec_function(&self, x: Real) -> Real {
        self.function(x)
    }

    fn spec_derivative(&self, y: Real) -> Real {
        self.derivative(y)
    }

    fn function(&self, x: Real) -> Real {
        Real(1.0 / (1.0 + std::f64::consts::E.powf(-x.0)))
    }
    fn derivative(&self, y: Real) -> Real {
        Real(y.0 * (1.0 - y.0))
    }
}

fn rows(v: Vec<Vec<f64>>) -> Vec<Vec<Real>> {
    v.into_iter().map(|r| r.into_iter().map(Real).collect()).collect()
}

fn xor_data() -> (Vec<Vec<Real>>, Vec<Vec<Real>>) {
    let inputs = rows(vec![
        vec![1.0, 1.0],
        vec![1.0, 0.0],
        vec![0.0, 1.0],
        vec![0.0, 0.0],
    ]);
    let targets = rows(vec![vec![0.0], vec![1.0], vec![1.0], vec![0.0]]);
    (inputs, targets)
}

#[test]
fn xor() {
    let (inputs, targets) = xor_data();
    let mut network = Network::new(vec![2, 3, 1], Sigmoid, Real(0.5)).unwrap();

    println!("Pre-Trained");
    for i in 0..inputs.len() {
        let pre_trained = network.feed_forward(inputs[i].clone()).unwrap();
        println!("input: {:#?}, result: {:#?}", inputs[i], pre_trained);
    }

    network.train(inputs.clone(), targets.clone(), 10000).unwrap();
    println!("Post-Trained");
    for i in 0..inputs.len() {
        let out = network.feed_forward(inputs[i].clone()).unwrap();
        println!("input: {:#?}, result: {:#?}", inputs[i], out);
        assert!((out[0].0 - targets[i][0].0).abs() < 0.1);
    }
}

#[test]
fn new_refuses_a_single_layer() {
    assert!(matches!(
        Network::new(vec![3], Sigmoid, Real(0.5)),
        Err(NetworkError::InvalidShape)
    ));
}

#[test]
fn feed_forward_refuses_wrong_arity() {
    let mut network = Network::new(vec![2, 3, 1], Sigmoid, Real(0.5)).unwrap();
    assert_eq!(network.feed_forward(vec![Real(1.0)]), Err(NetworkError::InvalidShape));
    let out = network.feed_forward(vec![Real(1.0), Real(0.0)]).unwrap();
    assert_eq!(out.len(), 1);
    assert!(out[0].0 > 0.0 && out[0].0 < 1.0);
}

#[test]
fn back_propagation_needs_a_forward_pass_and_sizes() {
    let mut network = Network::new(vec![2, 2], Sigmoid, Real(0.5)).unwrap();
    assert_eq!(
        network.back_propagation(vec![Real(0.5), Real(0.5)], vec![Real(1.0), Real(0.0)]),
        Err(NetworkError::InvalidShape)
    );
    let out = network.feed_forward(vec![Real(1.0), Real(0.0)]).unwrap();
    assert_eq!(network.back_propagation(out.clone(), vec![Real(1.0)]), Err(NetworkError::InvalidShape));
    assert_eq!(network.back_propagation(out, vec![Real(1.0), Real(0.0)]), Ok(()));
}

#[test]
fn backward_pass_moves_output_toward_target() {
    let mut network = Network::new(vec![1, 1], Sigmoid, Real(0.5)).unwrap();
    let before = network.feed_forward(vec![Real(1.0)]).unwrap();
    network.back_propagation(before.clone(), vec![Real(1.0)]).unwrap();
    let after = network.feed_forward(vec![Real(1.0)]).unwrap();
    assert!(after[0].0 > before[0].0);
}

#[test]
fn train_refuses_mismatched_data() {
    let mut network = Network::new(vec![2, 3, 1], Sigmoid, Real(0.5)).unwrap();
    let (inputs, targets) = xor_data();
    let mut fewer = targets.clone();
    fewer.pop();
    assert_eq!(network.train(inputs.clone(), fewer, 1), Err(NetworkError::SizeMismatch));
    let mut wide = inputs.clone();
    wide[2].push(Real(1.0));
    assert_eq!(network.train(wide, targets, 1), Err(NetworkError::InvalidShape));
}

fn reals(v: Vec<f64>) -> Vec<Real> {
    v.into_iter().map(Real).collect()
}

#[test]
fn scalar_kernels_on_reals() {
    let a = Matrix::from_vec(&reals(vec![1.0, 2.0, 3.0, 4.0, 5.0, 6.0]), 2, 3).unwrap();
    let b = Matrix::from_vec(&reals(vec![1.0, 2.0, 3.0, 4.0, 5.0, 6.0]), 3, 2).unwrap();
    assert_eq!(a.product(&b).unwrap().data, reals(vec![22.0, 28.0, 49.0, 64.0]));
    assert_eq!(a.sum(&a).unwrap().data, reals(vec![2.0, 4.0, 6.0, 8.0, 10.0, 12.0]));
    assert_eq!(a.difference(&a).unwrap().data, reals(vec![0.0; 6]));
    assert_eq!(a.hadamard(&a).unwrap().data, reals(vec![1.0, 4.0, 9.0, 16.0, 25.0, 36.0]));
    assert_eq!(a.scale(Real(0.5)).data, reals(vec![0.5, 1.0, 1.5, 2.0, 2.5, 3.0]));
    assert!(a.sum(&b).is_err());
    assert!(a.product(&a).is_err());
}

#[test]
fn feed_forward_repeats_itself() {
    let mut network = Network::new(vec![2, 3, 1], Sigmoid, Real(0.5)).unwrap();
    let first = network.feed_forward(reals(vec![1.0, 0.0])).unwrap();
    let second = network.feed_forward(reals(vec![1.0, 0.0])).unwrap();
    assert_eq!(first, second);
}

#[test]
fn training_on_nothing_changes_nothing() {
    let mut network = Network::new(vec![2, 3, 1], Sigmoid, Real(0.5)).unwrap();
    let before = network.feed_forward(reals(vec![1.0, 1.0])).unwrap();
    network.train(vec![], vec![], 5).unwrap();
    assert_eq!(network.feed_forward(reals(vec![1.0, 1.0])).unwrap(), before);
}

#[test]
fn zero_learning_rate_keeps_the_network() {
    let mut network = Network::new(vec![2, 3, 1], Sigmoid, Real(0.0)).unwrap();
    let (inputs, targets) = xor_data();
    let before = network.feed_forward(inputs[1].clone()).unwrap();
    network.train(inputs.clone(), targets, 3).unwrap();
    assert_eq!(network.feed_forward(inputs[1].clone()).unwrap(), before);
}
