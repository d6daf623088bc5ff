//! Neurons, layers and networks: where their parameters live in the arena and
//! what their forward passes append.

use rustograd::engine::{Graph, Op, Scalar};
use rustograd::nn::{Layer, Neuron, WeightInit, MLP};

#[derive(Clone, Copy, Debug, PartialEq)]
struct F(f64);

impl Scalar for F {
    fn from_ratio(num: i64, den: u64) -> Self {
        F(num as f64 / den as f64)
    }
    fn from_count(n: usize) -> Self {
        F(n as f64)
    }
    fn add(self, rhs: Self) -> Self {
        F(self.0 + rhs.0)
    }
    fn sub(self, rhs: Self) -> Self {
        F(self.0 - rhs.0)
    }
    fn mul(self, rhs: Self) -> Self {
        F(self.0 * rhs.0)
    }
    fn div(self, rhs: Self) -> Self {
        F(self.0 / rhs.0)
    }
    fn powf(self, exponent: Self) -> Self {
        F(self.0.powf(exponent.0))
    }
    fn relu(self) -> Self {
        F(self.0.max(0.0))
    }
    fn is_positive(self) -> bool {
        self.0 > 0.0
    }
    fn sqrt(self) -> Self {
        F(self.0.sqrt())
    }
}

/// Draws 1, 2, 3, ... in order (each weight is its draw times `sqrt(6 / nin)`).
struct Counting(f64);

impl WeightInit<F> for Counting {
    fn sample(&mut self) -> F {
        self.0 += 1.0;
        F(self.0)
    }
}

#[test]
fn neuron_parameters_are_weights_then_bias() {
    let mut g: Graph<F> = Graph::new();
    let x0 = g.value(F(0.5));
    let n = Neuron::new(&mut g, &mut Counting(0.0), 3, false);
    assert_eq!(n.parameters(), vec![1, 2, 3, 4]);
    // He-uniform scale for 3 inputs: sqrt(6 / 3).
    let scale = (6.0f64 / 3.0).sqrt();
    assert_eq!(g.nodes[1].data.0, 1.0 * scale);
    assert_eq!(g.nodes[3].data.0, 3.0 * scale);
    assert_eq!(g.nodes[4].data.0, 0.0);
    assert!(g.nodes.iter().all(|nd| matches!(nd.op, Op::Leaf)));
    let _ = x0;
}

#[test]
fn neuron_forward_sums_weighted_inputs() {
    let mut g: Graph<F> = Graph::new();
    let n = Neuron::new(&mut g, &mut Counting(0.0), 2, true);
    let x0 = g.value(F(-3.0));
    let x1 = g.value(F(0.5));
    // scale s = sqrt(6 / 2): s*(-3) + 2s*0.5 + 0 = -2s, relu -> 0
    let s = (6.0f64 / 2.0).sqrt();
    let out = n.forward(&mut g, &[x0, x1]);
    assert_eq!(out, 9);
    assert!(matches!(g.nodes[5].op, Op::Mul(0, 3)));
    assert!(matches!(g.nodes[6].op, Op::Add(2, 5)));
    assert!(matches!(g.nodes[7].op, Op::Mul(1, 4)));
    assert!(matches!(g.nodes[8].op, Op::Add(6, 7)));
    assert!(matches!(g.nodes[9].op, Op::Relu(8)));
    assert_eq!(g.nodes[8].data.0, (0.0 + (1.0 * s) * -3.0) + (2.0 * s) * 0.5);
    assert!(g.nodes[8].data.0 < 0.0);
    assert_eq!(g.nodes[out].data.0, 0.0);
    // Extra inputs beyond the weights are ignored; a linear neuron with no
    // inputs is its bias.
    let lin = Neuron::new(&mut g, &mut Counting(0.0), 1, false);
    let o = lin.forward(&mut g, &[]);
    assert_eq!(o, lin.parameters()[1]);
}

#[test]
fn layer_parameters_are_contiguous() {
    let mut g: Graph<F> = Graph::new();
    let l = Layer::new(&mut g, &mut Counting(0.0), 2, 3, true);
    assert_eq!(l.neurons().len(), 3);
    assert_eq!(l.parameters(), (0..9).collect::<Vec<usize>>());
    assert_eq!(l.neurons()[1].parameters(), vec![3, 4, 5]);
}

#[test]
fn mlp_parameters_fill_the_bottom_of_the_arena() {
    let mut g: Graph<F> = Graph::new();
    let m = MLP::new(&mut g, &mut Counting(0.0), 2, &[16, 16, 1]);
    // 16*(2+1) + 16*(16+1) + 1*(16+1) = 48 + 272 + 17
    assert_eq!(m.parameters().len(), 337);
    assert_eq!(m.parameters(), (0..337).collect::<Vec<usize>>());
    assert_eq!(g.nodes.len(), 337);
    assert_eq!(m.layers().len(), 3);
    assert_eq!(m.layers()[2].neurons().len(), 1);
}

#[test]
fn mlp_forward_and_verbose() {
    let mut g: Graph<F> = Graph::new();
    let m = MLP::new(&mut g, &mut Counting(0.0), 2, &[3, 2]);
    let watermark = g.nodes.len();
    let x0 = g.value(F(1.0));
    let x1 = g.value(F(-1.0));
    let out = m.forward(&mut g, &[x0, x1]);
    assert_eq!(out.len(), 2);
    let acts = m.forward_verbose(&mut g, &[x0, x1]);
    assert_eq!(acts.len(), 2);
    assert_eq!(acts[0].len(), 3);
    assert_eq!(acts[1].len(), 2);
    for (a, b) in out.iter().zip(&acts[1]) {
        assert_eq!(g.nodes[*a].data, g.nodes[*b].data);
    }
    // Truncating back to the watermark keeps the parameters.
    let before: Vec<f64> = (0..watermark).map(|i| g.nodes[i].data.0).collect();
    g.truncate(watermark);
    assert_eq!(g.nodes.len(), watermark);
    let after: Vec<f64> = (0..watermark).map(|i| g.nodes[i].data.0).collect();
    assert_eq!(before, after);
}

/// Each weight is its draw times the He scale, in order; the bias is zero.
#[test]
fn neuron_from_draws_scales_each_draw() {
    let mut g: Graph<F> = Graph::new();
    let draws = [F(0.5), F(-1.0), F(0.25), F(0.0)];
    let n = Neuron::from_draws(&mut g, &draws, true);
    let scale = (6.0f64 / 4.0).sqrt();
    for (i, d) in draws.iter().enumerate() {
        assert_eq!(g.nodes[i].data.0, d.0 * scale);
    }
    assert_eq!(g.nodes[4].data.0, 0.0);
    assert_eq!(n.parameters(), vec![0, 1, 2, 3, 4]);
    // The nodes a forward pass appends start with zero gradients.
    let x: Vec<usize> = (0..4).map(|i| g.value(F(i as f64))).collect();
    let top = g.nodes.len();
    let out = n.forward(&mut g, &x);
    assert!(out >= top);
    assert!(g.nodes[top..].iter().all(|nd| nd.grad.0 == 0.0));
}
