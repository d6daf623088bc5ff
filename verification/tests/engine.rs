//! The autograd engine on `f64` values: forward values, gradients, and the
//! order of the backward pass.

use rustograd::engine::{Graph, Op, Rule, Scalar};

const TOL: f64 = 1e-6;

/// `f64` arithmetic for the engine.
#[derive(Clone, Copy, Debug, PartialEq)]
struct F(f64);

impl Scalar for F {
    fn from_ratio(num: i64, den: u64) -> Self {
        F(num as f64 / den as f64)
    }
    fn from_count(n: usize) -> Self {
        F(n as f64)
    }
    fn add(self, rhs: Self) -> Self {
        F(self.0 + rhs.0)
    }
    fn sub(self, rhs: Self) -> Self {
        F(self.0 - rhs.0)
    }
    fn mul(self, rhs: Self) -> Self {
        F(self.0 * rhs.0)
    }
    fn div(self, rhs: Self) -> Self {
        F(self.0 / rhs.0)
    }
    fn powf(self, exponent: Self) -> Self {
        F(self.0.powf(exponent.0))
    }
    fn relu(self) -> Self {
        F(self.0.max(0.0))
    }
    fn is_positive(self) -> bool {
        self.0 > 0.0
    }
    fn sqrt(self) -> Self {
        F(self.0.sqrt())
    }
}

/// Mirrors micrograd's `test_sanity_check`:
///   x = Value(-4.0)
///   z = 2*x + 2 + x
///   q = z.relu() + z*x
///   h = (z*z).relu()
///   y = h + q + q*x
///   y.backward()
#[test]
fn sanity_check() {
    let mut g: Graph<F> = Graph::new();
    let x = g.value(F(-4.0));

    // z = 2*x + 2 + x
    let two = g.value(F(2.0));
    let z = g.mul(two, x);
    let two2 = g.value(F(2.0));
    let z = g.add(z, two2);
    let z = g.add(z, x);

    // q = z.relu() + z*x
    let zr = g.relu(z);
    let zx = g.mul(z, x);
    let q = g.add(zr, zx);

    // h = (z*z).relu()
    let zz = g.mul(z, z);
    let h = g.relu(zz);

    // y = h + q + q*x
    let y = g.add(h, q);
    let qx = g.mul(q, x);
    let y = g.add(y, qx);

    g.backward(y);

    assert!((g.nodes[y].data.0 - (-20.0)).abs() < TOL, "y.data = {}", g.nodes[y].data.0);
    assert!((g.nodes[x].grad.0 - 46.0).abs() < TOL, "x.grad = {}", g.nodes[x].grad.0);
}

/// Mirrors micrograd's `test_more_ops`: exercises +, *, **, /, -, unary neg and
/// relu, and checks the final output and leaf grads.
#[test]
fn more_ops() {
    let mut g: Graph<F> = Graph::new();
    let a = g.value(F(-4.0));
    let b = g.value(F(2.0));

    // c = a + b
    let mut c = g.add(a, b);

    // d = a*b + b**3
    let ab = g.mul(a, b);
    let b3 = g.powf(b, F(3.0));
    let mut d = g.add(ab, b3);

    // c += c + 1
    let one = g.value(F(1.0));
    let c1 = g.add(c, one);
    c = g.add(c, c1);

    // c += 1 + c + (-a)
    let one2 = g.value(F(1.0));
    let oc = g.add(one2, c);
    let na = g.neg(a);
    let t = g.add(oc, na);
    c = g.add(c, t);

    // d += d*2 + (b + a).relu()
    let two = g.value(F(2.0));
    let d2 = g.mul(d, two);
    let ba = g.add(b, a);
    let rba = g.relu(ba);
    let t = g.add(d2, rba);
    d = g.add(d, t);

    // d += 3*d + (b - a).relu()
    let three = g.value(F(3.0));
    let d3 = g.mul(three, d);
    let bma = g.sub(b, a);
    let rbma = g.relu(bma);
    let t = g.add(d3, rbma);
    d = g.add(d, t);

    // e = c - d ; f = e**2 ; out = f/2 + 10/f
    let e = g.sub(c, d);
    let f = g.powf(e, F(2.0));
    let two_f = g.value(F(2.0));
    let out = g.div(f, two_f);
    let ten = g.value(F(10.0));
    let tf = g.div(ten, f);
    let out = g.add(out, tf);

    g.backward(out);

    assert!((g.nodes[out].data.0 - 24.70408163265306).abs() < TOL, "out.data = {}", g.nodes[out].data.0);
    assert!((g.nodes[a].grad.0 - 138.83381924198252).abs() < TOL, "a.grad = {}", g.nodes[a].grad.0);
    assert!((g.nodes[b].grad.0 - 645.5772594752186).abs() < TOL, "b.grad = {}", g.nodes[b].grad.0);
}

/// Build a fixed expression over the leaves `xs`. The leaves are created first,
/// so leaf `i` is node index `i` and its grad is `g.nodes[i].grad` after backward.
///
/// f(x0,x1,x2) = relu(x0*x1) + x2^3 / x0 - (x1 - x0)
fn build(xs: &[f64]) -> (Graph<F>, usize) {
    let mut g: Graph<F> = Graph::new();
    let v: Vec<usize> = xs.iter().map(|&x| g.value(F(x))).collect();

    let p = g.mul(v[0], v[1]);
    let r = g.relu(p);
    let cube = g.powf(v[2], F(3.0));
    let dq = g.div(cube, v[0]);
    let s = g.sub(v[1], v[0]);
    let t = g.add(r, dq);
    let out = g.sub(t, s);
    (g, out)
}

/// Gradient check: compare each leaf's analytic grad (from `backward`) against a
/// central finite difference of the forward pass.
#[test]
fn grad_check_finite_difference() {
    let xs = [2.0_f64, 3.0, 1.5]; // chosen so relu's input (x0*x1) is positive
    let h = 1e-6;

    let (mut g, out) = build(&xs);
    g.backward(out);
    let analytic: Vec<f64> = (0..xs.len()).map(|i| g.nodes[i].grad.0).collect();

    let eval = |xs: &[f64]| -> f64 {
        let (g, out) = build(xs);
        g.nodes[out].data.0
    };
    for i in 0..xs.len() {
        let mut up = xs.to_vec();
        up[i] += h;
        let mut down = xs.to_vec();
        down[i] -= h;
        let numeric = (eval(&up) - eval(&down)) / (2.0 * h);
        assert!(
            (analytic[i] - numeric).abs() < 1e-4,
            "leaf {i}: analytic {} vs numeric {}",
            analytic[i],
            numeric
        );
    }
}

/// A node used twice accumulates both paths: d(x*x)/dx = 2x.
#[test]
fn gradients_accumulate_over_uses() {
    let mut g: Graph<F> = Graph::new();
    let x = g.value(F(3.0));
    let y = g.mul(x, x);
    g.backward(y);
    assert_eq!(g.nodes[y].data.0, 9.0);
    assert_eq!(g.nodes[x].grad.0, 6.0);
}

/// `backward` resets old gradients before accumulating new ones.
#[test]
fn backward_resets_gradients() {
    let mut g: Graph<F> = Graph::new();
    let a = g.value(F(2.0));
    let b = g.value(F(5.0));
    let s = g.add(a, b);
    g.backward(s);
    g.backward(s);
    assert_eq!(g.nodes[a].grad.0, 1.0);
    assert_eq!(g.nodes[b].grad.0, 1.0);
    assert_eq!(g.nodes[s].grad.0, 1.0);
}

/// Nodes above the root get no gradient; relu passes nothing where its
/// output is not positive.
#[test]
fn relu_gates_and_root_seeding() {
    let mut g: Graph<F> = Graph::new();
    let a = g.value(F(-1.5));
    let r = g.relu(a);
    let above = g.mul(r, a);
    g.backward(r);
    assert_eq!(g.nodes[r].data.0, 0.0);
    assert_eq!(g.nodes[a].grad.0, 0.0);
    assert_eq!(g.nodes[r].grad.0, 1.0);
    assert_eq!(g.nodes[above].grad.0, 0.0);
}

/// Derived operations expand into the primitive ones.
#[test]
fn derived_ops_shapes() {
    let mut g: Graph<F> = Graph::new();
    let a = g.value(F(6.0));
    let b = g.value(F(3.0));
    let n = g.neg(a);
    assert_eq!(n, 3);
    assert!(matches!(g.nodes[2].op, Op::Leaf));
    assert_eq!(g.nodes[2].data.0, -1.0);
    assert!(matches!(g.nodes[3].op, Op::Mul(0, 2)));
    assert_eq!(g.nodes[n].data.0, -6.0);
    let s = g.sub(a, b);
    assert_eq!(s, 6);
    assert!(matches!(g.nodes[6].op, Op::Add(0, 5)));
    assert_eq!(g.nodes[s].data.0, 3.0);
    let d = g.div(a, b);
    assert_eq!(d, 8);
    assert!(matches!(g.nodes[7].op, Op::Pow(1, e) if e.0 == -1.0));
    assert!(matches!(g.nodes[8].op, Op::Mul(0, 7)));
    assert!((g.nodes[d].data.0 - 2.0).abs() < 1e-12);
    g.truncate(2);
    assert_eq!(g.nodes.len(), 2);
    assert_eq!(g.nodes[1].data.0, 3.0);
}

/// The backward schedule visits nodes from the top down, each node's inputs
/// in order, with the local derivative of each input.
#[test]
fn backward_steps_order() {
    let mut g: Graph<F> = Graph::new();
    let a = g.value(F(2.0));
    let b = g.value(F(3.0));
    let m = g.mul(a, b); // 2
    let s = g.add(m, a); // 3
    let r = g.relu(s); // 4
    let p = g.powf(r, F(2.0)); // 5
    let steps = g.backward_steps();
    let got: Vec<(usize, usize)> = steps.iter().map(|s| (s.target, s.source)).collect();
    assert_eq!(got, vec![(r, p), (s, r), (m, s), (a, s), (a, m), (b, m)]);
    assert!(matches!(steps[0].rule, Rule::Power(e) if e.0 == 2.0));
    assert!(matches!(steps[1].rule, Rule::Gate));
    assert!(matches!(steps[2].rule, Rule::Pass));
    assert!(matches!(steps[4].rule, Rule::ScaledBy(1)));
    assert!(matches!(steps[5].rule, Rule::ScaledBy(0)));
    // Once a node's gradient has been passed on, nothing writes to it again.
    for (p, sp) in steps.iter().enumerate() {
        for sq in &steps[p..] {
            assert_ne!(sq.target, sp.source);
        }
    }
}
