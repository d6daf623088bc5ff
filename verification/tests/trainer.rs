//! Training sessions: the loss graph, the step count, frame selection and
//! classification.

use rand::rngs::StdRng;
use rand::{Rng, SeedableRng};
use rustograd::engine::{Graph, Op, Scalar};
use rustograd::nn::{WeightInit, MLP};
use rustograd::trainer::{build_loss, keeps_frame, Session};

#[derive(Clone, Copy, Debug, PartialEq)]
struct F(f64);

impl Scalar for F {
    fn from_ratio(num: i64, den: u64) -> Self {
        F(num as f64 / den as f64)
    }
    fn from_count(n: usize) -> Self {
        F(n as f64)
    }
    fn add(self, rhs: Self) -> Self {
        F(self.0 + rhs.0)
    }
    fn sub(self, rhs: Self) -> Self {
        F(self.0 - rhs.0)
    }
    fn mul(self, rhs: Self) -> Self {
        F(self.0 * rhs.0)
    }
    fn div(self, rhs: Self) -> Self {
        F(self.0 / rhs.0)
    }
    fn powf(self, exponent: Self) -> Self {
        F(self.0.powf(exponent.0))
    }
    fn relu(self) -> Self {
        F(self.0.max(0.0))
    }
    fn is_positive(self) -> bool {
        self.0 > 0.0
    }
    fn sqrt(self) -> Self {
        F(self.0.sqrt())
    }
}

/// Uniform draws from a seeded generator; the library scales them to
/// He-uniform weights.
struct He<'a>(&'a mut StdRng);

impl<'a> WeightInit<F> for He<'a> {
    fn sample(&mut self) -> F {
        F(self.0.gen_range(-1.0..1.0))
    }
}

/// Every draw equal to `w` (so every weight is `w * sqrt(6 / nin)`).
struct Constant(f64);

impl WeightInit<F> for Constant {
    fn sample(&mut self) -> F {
        F(self.0)
    }
}

fn to_f(v: &[f64]) -> Vec<F> {
    v.iter().map(|&x| F(x)).collect()
}

/// Train a steppable session on a tiny separable 3-D set; the kept model
/// classifies fresh points on the correct side.
#[test]
fn session_steps_and_classifies() {
    let xs = vec![
        to_f(&[1.0, 1.0, 1.0]),
        to_f(&[0.9, 1.1, 0.8]),
        to_f(&[-1.0, -1.0, -1.0]),
        to_f(&[-0.8, -1.2, -0.9]),
    ];
    let ys = to_f(&[1.0, 1.0, -1.0, -1.0]);
    let mut rng = StdRng::seed_from_u64(7);
    let mut s = Session::new(xs, ys, &[8], 120, F(0.2), &mut He(&mut rng));

    assert_eq!(s.dim, 3);
    assert!(s.layout_json().contains("\"layers\":[3,8,1]"));
    let mut frames = 0;
    while s.step().is_some() {
        frames += 1;
    }
    assert_eq!(frames, 120);
    assert!(s.classify(&to_f(&[1.2, 1.0, 0.9])).0 > 0.0, "positive cluster misclassified");
    assert!(s.classify(&to_f(&[-1.1, -0.9, -1.0])).0 < 0.0, "negative cluster misclassified");
}

#[test]
fn session_counts_steps() {
    let xs = vec![to_f(&[1.0, 0.0])];
    let ys = to_f(&[1.0]);
    let mut s = Session::new(xs, ys, &[], 0, F(0.1), &mut Constant(0.5));
    assert_eq!(s.steps(), 1);
    assert_eq!(s.layers(), &[2, 1]);
    assert_eq!(s.layout_json(), "{\"layers\":[2,1],\"steps\":1}");
    let first = s.step().expect("one step");
    assert_eq!(first.step, 0);
    assert_eq!(first.correct, 1);
    assert!(s.step().is_none());
    assert_eq!(s.steps_taken(), 1);
}

/// With no feature vectors the input width defaults to 2.
#[test]
fn session_default_dim() {
    let s: Session<F> = Session::new(vec![], vec![], &[4], 5, F(1.0), &mut Constant(0.1));
    assert_eq!(s.dim, 2);
    assert_eq!(s.layers(), &[2, 4, 1]);
}

/// The loss of a one-weight model: weight `0.5 * sqrt(6)`, bias 0, one point.
#[test]
fn loss_value_and_accuracy() {
    let mut g: Graph<F> = Graph::new();
    let m = MLP::new(&mut g, &mut Constant(0.5), 1, &[1]);
    let w = 0.5 * 6.0f64.sqrt();
    assert_eq!(g.nodes[0].data.0, w);
    let xs = vec![to_f(&[2.0])];
    let ys = to_f(&[-1.0]);
    let (loss, correct) = build_loss(&mut g, &m, &xs, &ys);
    assert_eq!(loss, g.nodes.len() - 1);
    assert!(matches!(g.nodes[loss].op, Op::Add(_, _)));
    // score = 2w > 0 while the label is negative; hinge = relu(1 + 2w);
    // reg = 1e-4 * (w^2 + 0)
    assert_eq!(correct, 0);
    let expected = (1.0 + 2.0 * w) + 1e-4 * (w * w);
    assert!((g.nodes[loss].data.0 - expected).abs() < 1e-12);
}

#[test]
fn frame_selection() {
    // Short runs keep every step.
    assert!((0..10).all(|i| keeps_frame(i, 10)));
    // Long runs keep every ceil(total/60)-th step and the last.
    let kept: Vec<usize> = (0..130).filter(|&i| keeps_frame(i, 130)).collect();
    assert_eq!(kept.len(), 44);
    assert_eq!(kept[0], 0);
    assert_eq!(kept[1], 3);
    assert_eq!(*kept.last().unwrap(), 129);
    assert!(keeps_frame(0, 1));
    // At most about 60 frames whatever the number of steps.
    for total in [60usize, 61, 119, 120, 121, 1000, 12345] {
        let n = (0..total).filter(|&i| keeps_frame(i, total)).count();
        assert!(n <= 61, "{} frames for {} steps", n, total);
        assert!(keeps_frame(total - 1, total));
    }
    assert_eq!((0..119).filter(|&i| keeps_frame(i, 119)).count(), 60);
}

/// A new session's arena holds exactly the model's parameters; a step leaves
/// the loss graph above them, its last node the reported loss.
#[test]
fn session_arena_layout() {
    let xs = vec![to_f(&[1.0, 2.0]), to_f(&[-1.0, 0.5])];
    let ys = to_f(&[1.0, -1.0]);
    let mut s = Session::new(xs, ys, &[3], 4, F(0.5), &mut Constant(0.25));
    let n_params = s.model().parameters().len();
    // 3*(2+1) + 1*(3+1)
    assert_eq!(n_params, 13);
    assert_eq!(s.graph().nodes.len(), n_params);
    assert_eq!(s.model().parameters(), (0..n_params).collect::<Vec<usize>>());
    let rep = s.step().expect("a step");
    let last = s.graph().nodes.last().expect("loss node");
    assert_eq!(last.data, rep.loss);
    assert!(matches!(last.op, Op::Add(_, _)));
    assert!(s.graph().nodes.len() > n_params);
    // The scores of classify and of the last layer of activations agree.
    let x = to_f(&[0.3, -0.7]);
    let acts = s.activations(&x);
    let act_score = s.graph().nodes[acts[1][0]].data;
    let score = s.classify(&x);
    assert_eq!(score, act_score);
    // Both start from the parameters, with the input leaves on top.
    assert_eq!(s.graph().nodes[n_params].data, F(0.3));
    assert_eq!(s.graph().nodes[n_params + 1].data, F(-0.7));
}

fn randn(rng: &mut StdRng) -> f64 {
    let u1: f64 = rng.gen_range(0.0..1.0f64).max(1e-12);
    let u2: f64 = rng.gen_range(0.0..1.0f64);
    (-2.0 * u1.ln()).sqrt() * (2.0 * std::f64::consts::PI * u2).cos()
}

/// Two interleaving noisy arcs, labels ±1.
fn moons(n: usize, noise: f64, rng: &mut StdRng) -> (Vec<Vec<F>>, Vec<F>) {
    let n_out = n / 2;
    let n_in = n - n_out;
    let mut xs = Vec::new();
    let mut ys = Vec::new();
    for i in 0..n_out {
        let t = std::f64::consts::PI * i as f64 / (n_out as f64 - 1.0);
        xs.push(to_f(&[t.cos() + noise * randn(rng), t.sin() + noise * randn(rng)]));
        ys.push(F(-1.0));
    }
    for i in 0..n_in {
        let t = std::f64::consts::PI * i as f64 / (n_in as f64 - 1.0);
        xs.push(to_f(&[
            1.0 - t.cos() + noise * randn(rng),
            1.0 - t.sin() - 0.5 + noise * randn(rng),
        ]));
        ys.push(F(1.0));
    }
    (xs, ys)
}

/// A deeper custom architecture trains on the moons: the loss falls.
#[test]
fn trains_custom_architecture() {
    let mut rng = StdRng::seed_from_u64(1337);
    let (xs, ys) = moons(100, 0.1, &mut rng);
    let mut s = Session::new(xs, ys, &[10, 10, 10], 40, F(1.0), &mut He(&mut rng));
    assert!(s.layout_json().contains("\"layers\":[2,10,10,10,1]"));
    let mut losses = Vec::new();
    while let Some(rep) = s.step() {
        losses.push(rep.loss.0);
    }
    assert_eq!(losses.len(), 40);
    assert!(*losses.last().unwrap() < losses[0], "loss didn't fall");
}

/// Each step moves every parameter by `-lr * grad` with
/// `lr = lr0 * (1 - 0.9 * k / steps)`, and the gradients it leaves are those
/// of the loss before the update.
#[test]
fn step_updates_parameters_with_decaying_rate() {
    let xs = vec![to_f(&[1.0, 2.0]), to_f(&[-1.0, 0.5])];
    let ys = to_f(&[1.0, -1.0]);
    let lr0 = 0.5;
    let steps = 4;
    let mut s = Session::new(xs, ys, &[3], steps, F(lr0), &mut Constant(0.25));
    assert_eq!(s.dim(), 2);
    let params = s.model().parameters();
    for k in 0..steps {
        let before: Vec<f64> = params.iter().map(|&p| s.graph().nodes[p].data.0).collect();
        s.step().expect("a step");
        let lr = lr0 * (1.0 - 0.9 * k as f64 / steps as f64);
        for (i, &p) in params.iter().enumerate() {
            let node = &s.graph().nodes[p];
            assert!((node.data.0 - (before[i] - lr * node.grad.0)).abs() < 1e-12);
        }
    }
    // Once every step is taken, a step changes nothing.
    let nodes_before: Vec<(f64, f64)> = s.graph().nodes.iter().map(|n| (n.data.0, n.grad.0)).collect();
    assert!(s.step().is_none());
    let nodes_after: Vec<(f64, f64)> = s.graph().nodes.iter().map(|n| (n.data.0, n.grad.0)).collect();
    assert_eq!(nodes_before, nodes_after);
    assert_eq!(s.steps_taken(), steps);
}
