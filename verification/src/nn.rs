//! Neurons, layers and multi-layer perceptrons on top of the autograd engine.
//!
//! A parameter is an index into a [`Graph`], not a value of its own, so every
//! constructor and every forward pass takes the graph explicitly. All
//! parameters are allocated when the network is built, so a network built on
//! an empty graph owns exactly the bottom of the arena: a training step can
//! push its forward pass above them and truncate back afterwards.

use vstd::prelude::*;
use crate::engine::{
    Graph, Node, Op, Scalar, computed_between, counted, divided, extends, grows,
    lemma_computed_append, lemma_grads_zero_append, multiplied, node_computed, ratio, relued, added,
    sqrted, topo_ordered,
};

verus! {

/// Where the random part of the initial weights comes from.
pub trait WeightInit<T> {
    /// A draw from the uniform distribution on `[-1, 1)`.
    fn sample(&mut self) -> T;
}

/// `scale` is the He/Kaiming-uniform scale of a neuron with `nin` inputs,
/// `sqrt(6 / max(nin, 1))`, as the scalar computes it.
pub open spec fn he_scale<T: Scalar>(nin: usize, scale: T) -> bool {
    exists|six: T, n: T, q: T|
        #![trigger ratio(6i64, 1u64, six), counted(at_least_one(nin), n), divided(six, n, q)]
        ratio(6i64, 1u64, six) && counted(at_least_one(nin), n) && divided(six, n, q) && sqrted(
            q,
            scale,
        )
}

/// `max(n, 1)`.
pub open spec fn at_least_one(n: usize) -> usize {
    if n > 1 {
        n
    } else {
        1
    }
}

/// `w` is some value multiplied by `scale`.
pub open spec fn scaled_value<T: Scalar>(scale: T, w: T) -> bool {
    exists|u: T| #[trigger] multiplied(u, scale, w)
}

/// Every weight of `n` holds, in `nodes`, some value times the He scale of a
/// neuron with `nin` inputs.
pub open spec fn he_weights<T: Scalar>(n: Neuron, nodes: Seq<Node<T>>, nin: usize) -> bool {
    exists|scale: T|
        #[trigger] he_scale(nin, scale) && forall|i: int|
            0 <= i < n.weights().len() ==> scaled_value(scale, #[trigger] nodes[n.weights()[i] as int].data)
}

/// From node `base` up, `nodes` holds each of `draws` times the He scale of
/// a neuron with one input per draw, in order.
pub open spec fn drawn_weights<T: Scalar>(nodes: Seq<Node<T>>, base: int, draws: Seq<T>) -> bool {
    exists|scale: T|
        #[trigger] he_scale(draws.len() as usize, scale) && forall|i: int|
            0 <= i < draws.len() ==> multiplied(draws[i], scale, #[trigger] nodes[base + i].data)
}

/// `u` is a value that the weight source `I` can hand out.
pub open spec fn sampled<T, I: WeightInit<T>>(u: T) -> bool {
    exists|a: (&mut I,)| call_ensures(I::sample, a, u)
}

/// Every weight of `n` holds, in `nodes`, a value handed out by the weight
/// source `I` times the He scale for one input per weight: weight `i` is
/// draw `i` times the scale.
pub open spec fn weights_from<T: Scalar, I: WeightInit<T>>(n: Neuron, nodes: Seq<Node<T>>) -> bool {
    exists|draws: Seq<T>, scale: T|
        #![trigger he_scale(draws.len() as usize, scale), draws.len()]
        draws.len() == n.weights().len() && he_scale(draws.len() as usize, scale) && forall|i: int|
            0 <= i < draws.len() ==> sampled::<T, I>(#[trigger] draws[i]) && multiplied(
                draws[i],
                scale,
                nodes[n.weights()[i] as int].data,
            )
}

/// The scalar's constants, counts, division and square root are functions.
pub open spec fn scale_functional<T: Scalar>() -> bool {
    &&& forall|a: i64, b: u64, r: T, q: T|
        #![trigger ratio(a, b, r), ratio(a, b, q)]
        ratio(a, b, r) && ratio(a, b, q) ==> r == q
    &&& forall|a: usize, r: T, q: T|
        #![trigger counted(a, r), counted(a, q)]
        counted(a, r) && counted(a, q) ==> r == q
    &&& forall|a: T, b: T, r: T, q: T|
        #![trigger divided(a, b, r), divided(a, b, q)]
        divided(a, b, r) && divided(a, b, q) ==> r == q
    &&& forall|a: T, r: T, q: T|
        #![trigger sqrted(a, r), sqrted(a, q)]
        sqrted(a, r) && sqrted(a, q) ==> r == q
}

/// With such a scalar, a neuron has one He scale.
pub proof fn lemma_he_scale_unique<T: Scalar>(nin: usize, s1: T, s2: T)
    requires
        scale_functional::<T>(),
        he_scale(nin, s1),
        he_scale(nin, s2),
    ensures
        s1 == s2,
{
    let (a1, b1, c1) = choose|six: T, n: T, q: T|
        ratio(6i64, 1u64, six) && counted(at_least_one(nin), n) && divided(six, n, q) && sqrted(q, s1);
    let (a2, b2, c2) = choose|six: T, n: T, q: T|
        ratio(6i64, 1u64, six) && counted(at_least_one(nin), n) && divided(six, n, q) && sqrted(q, s2);
    assert(a1 == a2);
    assert(b1 == b2);
    assert(c1 == c2);
}

/// With a scalar whose scale operations are functions, the He scale of a
/// neuron is unique, and each of
/// its weights is a value handed out by the weight source times that very
/// scale: no weight is made from anything but a draw (a draw clipped, or
/// replaced by a constant, is not one).
pub proof fn lemma_weight_is_scaled_draw<T: Scalar, I: WeightInit<T>>(
    n: Neuron,
    nodes: Seq<Node<T>>,
    scale: T,
    i: int,
)
    requires
        scale_functional::<T>(),
        weights_from::<T, I>(n, nodes),
        he_scale(n.weights().len() as usize, scale),
        0 <= i < n.weights().len(),
    ensures
        exists|u: T| sampled::<T, I>(u) && #[trigger] multiplied(u, scale, nodes[n.weights()[i] as int].data),
{
    let (draws, s) = choose|draws: Seq<T>, scale: T|
        #![trigger he_scale(draws.len() as usize, scale), draws.len()]
        draws.len() == n.weights().len() && he_scale(draws.len() as usize, scale) && forall|i: int|
            0 <= i < draws.len() ==> sampled::<T, I>(#[trigger] draws[i]) && multiplied(
                draws[i],
                scale,
                nodes[n.weights()[i] as int].data,
            );
    lemma_he_scale_unique(n.weights().len() as usize, s, scale);
    assert(sampled::<T, I>(draws[i]));
}

/// Every neuron of `l` has its weights made from draws of `I`.
pub open spec fn layer_weights_from<T: Scalar, I: WeightInit<T>>(l: Layer, nodes: Seq<Node<T>>) -> bool {
    forall|k: int|
        0 <= k < l.neuron_seq().len() ==> weights_from::<T, I>(#[trigger] l.neuron_seq()[k], nodes)
}

/// Appending nodes keeps the draws a neuron's weights were made from.
pub proof fn lemma_weights_from_kept<T: Scalar, I: WeightInit<T>>(
    n: Neuron,
    nodes: Seq<Node<T>>,
    later: Seq<Node<T>>,
)
    requires
        weights_from::<T, I>(n, nodes),
        grows(nodes, later),
        n.fits(nodes.len() as int),
    ensures
        weights_from::<T, I>(n, later),
{
    let (draws, scale) = choose|draws: Seq<T>, scale: T|
        #![trigger he_scale(draws.len() as usize, scale), draws.len()]
        draws.len() == n.weights().len() && he_scale(draws.len() as usize, scale) && forall|i: int|
            0 <= i < draws.len() ==> sampled::<T, I>(#[trigger] draws[i]) && multiplied(
                draws[i],
                scale,
                nodes[n.weights()[i] as int].data,
            );
    assert forall|i: int| 0 <= i < draws.len() implies sampled::<T, I>(#[trigger] draws[i])
        && multiplied(draws[i], scale, later[n.weights()[i] as int].data) by {
        assert(n.params()[i] == n.weights()[i]);
        assert(later[n.weights()[i] as int] == nodes[n.weights()[i] as int]);
    }
}

/// Every neuron of `l` has He-scaled weights for `nin` inputs in `nodes`.
pub open spec fn layer_he_weights<T: Scalar>(l: Layer, nodes: Seq<Node<T>>, nin: usize) -> bool {
    forall|k: int| 0 <= k < l.neuron_seq().len() ==> he_weights(#[trigger] l.neuron_seq()[k], nodes, nin)
}

/// Appending nodes keeps the weights a neuron was given.
pub proof fn lemma_he_weights_kept<T: Scalar>(
    n: Neuron,
    nodes: Seq<Node<T>>,
    later: Seq<Node<T>>,
    nin: usize,
)
    requires
        he_weights(n, nodes, nin),
        grows(nodes, later),
        n.fits(nodes.len() as int),
    ensures
        he_weights(n, later, nin),
{
    let scale = choose|scale: T|
        #[trigger] he_scale(nin, scale) && forall|i: int|
            0 <= i < n.weights().len() ==> scaled_value(scale, #[trigger] nodes[n.weights()[i] as int].data);
    assert forall|i: int| 0 <= i < n.weights().len() implies scaled_value(
        scale,
        #[trigger] later[n.weights()[i] as int].data,
    ) by {
        assert(n.params()[i] == n.weights()[i]);
        assert(later[n.weights()[i] as int] == nodes[n.weights()[i] as int]);
        assert(scaled_value(scale, nodes[n.weights()[i] as int].data));
    }
}

/// The indices `lo, lo + 1, ..., lo + n - 1`.
pub open spec fn index_range(lo: int, n: int) -> Seq<usize> {
    Seq::new(n as nat, |i: int| (lo + i) as usize)
}

/// Every node from index `lo` of `nodes` up is a leaf.
pub open spec fn leaves_from<T>(nodes: Seq<Node<T>>, lo: int) -> bool {
    forall|i: int| lo <= i < nodes.len() ==> #[trigger] nodes[i].op == Op::<T>::Leaf
}

/// Every index in `s` is below `len`.
pub open spec fn all_below(s: Seq<usize>, len: int) -> bool {
    forall|i: int| 0 <= i < s.len() ==> #[trigger] s[i] < len
}

/// The running sum after `i` weighted inputs of a neuron whose forward pass
/// starts at arena index `base`: the bias first, then each `Add` node.
pub open spec fn running_sum(bias: usize, base: int, i: int) -> int {
    if i == 0 {
        bias as int
    } else {
        base + 2 * i - 1
    }
}

/// The bias of every neuron of `ns` holds `zero` in `nodes`.
pub open spec fn biases_zero<T>(ns: Seq<Neuron>, nodes: Seq<Node<T>>, zero: T) -> bool {
    forall|k: int| 0 <= k < ns.len() ==> #[trigger] nodes[ns[k].bias() as int].data == zero
}

/// The smaller of two lengths.
pub open spec fn min_len(a: int, b: int) -> int {
    if a <= b {
        a
    } else {
        b
    }
}

/// A single neuron: `sum_i w_i * x_i + b`, optionally passed through ReLU.
pub struct Neuron {
    w: Vec<usize>,
    b: usize,
    nonlin: bool,
}

impl Neuron {
    /// The weight indices.
    pub closed spec fn weights(&self) -> Seq<usize> {
        self.w@
    }

    /// The bias index.
    pub closed spec fn bias(&self) -> usize {
        self.b
    }

    /// Whether the output goes through ReLU.
    pub closed spec fn nonlinear(&self) -> bool {
        self.nonlin
    }

    /// The trainable indices: the weights, then the bias.
    pub open spec fn params(&self) -> Seq<usize> {
        self.weights().push(self.bias())
    }

    /// How many weighted inputs a forward pass over `x` sums: one per weight
    /// that has an input.
    pub open spec fn used_inputs(&self, x: Seq<usize>) -> int {
        min_len(self.weights().len() as int, x.len() as int)
    }

    /// Every parameter lies in an arena of `len` nodes.
    pub open spec fn fits(&self, len: int) -> bool {
        all_below(self.params(), len)
    }

    /// How many nodes a forward pass over `n_inputs` inputs appends: a
    /// product and a sum per weighted input, and a ReLU if nonlinear.
    pub open spec fn growth(&self, n_inputs: int) -> int {
        2 * min_len(self.weights().len() as int, n_inputs) + if self.nonlinear() {
            1int
        } else {
            0int
        }
    }

    /// The output node of a forward pass over `n_inputs` inputs that starts
    /// on an arena of `base` nodes.
    pub open spec fn output(&self, n_inputs: int, base: int) -> int {
        let n = min_len(self.weights().len() as int, n_inputs);
        if self.nonlinear() {
            base + 2 * n
        } else {
            running_sum(self.bias(), base, n)
        }
    }

    /// The nodes that a forward pass over the inputs `x` appends on an arena
    /// of `base` nodes, as `nodes` holds them: for each weighted input `i`
    /// the product `w_i * x_i` at `base + 2i` and the running sum, from the
    /// bias, at `base + 2i + 1`; then the ReLU of the sum if nonlinear.
    pub open spec fn appended<T>(&self, nodes: Seq<Node<T>>, x: Seq<usize>, base: int) -> bool {
        &&& forall|i: int|
            0 <= i < self.used_inputs(x) ==> {
                &&& nodes[base + 2 * i].op == Op::<T>::Mul(#[trigger] self.weights()[i], x[i])
                &&& nodes[base + 2 * i + 1].op == Op::<T>::Add(
                    running_sum(self.bias(), base, i) as usize,
                    (base + 2 * i) as usize,
                )
            }
        &&& self.nonlinear() ==> nodes[base + 2 * self.used_inputs(x)].op == Op::<T>::Relu(
            running_sum(self.bias(), base, self.used_inputs(x)) as usize,
        )
    }

    /// Appending more nodes keeps what a forward pass appended.
    pub proof fn lemma_appended_kept<T>(
        &self,
        nodes: Seq<Node<T>>,
        later: Seq<Node<T>>,
        x: Seq<usize>,
        base: int,
    )
        requires
            self.appended(nodes, x, base),
            grows(nodes, later),
            0 <= base,
            base + self.growth(x.len() as int) <= nodes.len(),
        ensures
            self.appended(later, x, base),
    {
        assert forall|i: int| 0 <= i < self.used_inputs(x) implies {
            &&& later[base + 2 * i].op == Op::<T>::Mul(#[trigger] self.weights()[i], x[i])
            &&& later[base + 2 * i + 1].op == Op::<T>::Add(
                running_sum(self.bias(), base, i) as usize,
                (base + 2 * i) as usize,
            )
        } by {
            assert(later[base + 2 * i] == nodes[base + 2 * i]);
            assert(later[base + 2 * i + 1] == nodes[base + 2 * i + 1]);
        }
        if self.nonlinear() {
            assert(later[base + 2 * self.used_inputs(x)] == nodes[base + 2 * self.used_inputs(x)]);
        }
    }

    /// `nin` weights with He/Kaiming-uniform initialisation, each a draw of
    /// `init` times `sqrt(6 / max(nin, 1))`, then a bias of zero, each a new
    /// leaf: the `nin` draws are taken in order and handed to
    /// [`from_draws`](Neuron::from_draws).
    pub fn new<T: Scalar, I: WeightInit<T>>(
        g: &mut Graph<T>,
        init: &mut I,
        nin: usize,
        nonlin: bool,
    ) -> (n: Neuron)
        requires
            old(g).wf(),
        ensures
            final(g).wf(),
            final(g).same_constants(&*old(g)),
            extends(old(g).nodes@, final(g).nodes@, nin + 1),
            leaves_from(final(g).nodes@, old(g).nodes@.len() as int),
            n.weights() == index_range(old(g).nodes@.len() as int, nin as int),
            n.bias() == old(g).nodes@.len() + nin,
            n.params() == index_range(old(g).nodes@.len() as int, nin + 1),
            n.nonlinear() == nonlin,
            final(g).nodes@[old(g).nodes@.len() + nin].data == final(g).zero,
            final(g).grads_zero_from(old(g).nodes@.len() as int),
            he_weights(n, final(g).nodes@, nin),
            weights_from::<T, I>(n, final(g).nodes@),
    {
        let mut draws: Vec<T> = Vec::new();
        let mut i: usize = 0;
        while i < nin
            invariant
                i <= nin,
                draws@.len() == i,
                forall|j: int| 0 <= j < i ==> sampled::<T, I>(#[trigger] draws@[j]),
            decreases nin - i,
        {
            let u = init.sample();
            assert(sampled::<T, I>(u));
            draws.push(u);
            i = i + 1;
        }
        let ghost base = old(g).nodes@.len() as int;
        let n = Neuron::from_draws(g, draws.as_slice(), nonlin);
        proof {
            let scale = choose|scale: T|
                #[trigger] he_scale(draws@.len() as usize, scale) && forall|i: int|
                    0 <= i < draws@.len() ==> multiplied(
                        draws@[i],
                        scale,
                        #[trigger] g.nodes@[base + i].data,
                    );
            assert forall|i: int| 0 <= i < draws@.len() implies sampled::<T, I>(
                #[trigger] draws@[i],
            ) && multiplied(draws@[i], scale, g.nodes@[n.weights()[i] as int].data) by {
                assert(n.weights()[i] == base + i);
                assert(multiplied(draws@[i], scale, g.nodes@[base + i].data));
            }
            assert(he_scale(draws@.len() as usize, scale));
        }
        n
    }

    /// A neuron with one input per draw: each weight is its draw times the
    /// He/Kaiming-uniform scale `sqrt(6 / max(nin, 1))` for `nin` inputs,
    /// then a bias of zero, each a new leaf. The scaling keeps activation
    /// variance roughly constant across ReLU layers.
    pub fn from_draws<T: Scalar>(g: &mut Graph<T>, draws: &[T], nonlin: bool) -> (n: Neuron)
        requires
            old(g).wf(),
        ensures
            final(g).wf(),
            final(g).same_constants(&*old(g)),
            extends(old(g).nodes@, final(g).nodes@, draws@.len() + 1int),
            leaves_from(final(g).nodes@, old(g).nodes@.len() as int),
            n.weights() == index_range(old(g).nodes@.len() as int, draws@.len() as int),
            n.bias() == old(g).nodes@.len() + draws@.len(),
            n.params() == index_range(old(g).nodes@.len() as int, draws@.len() + 1int),
            n.nonlinear() == nonlin,
            final(g).nodes@[(old(g).nodes@.len() + draws@.len()) as int].data == final(g).zero,
            final(g).grads_zero_from(old(g).nodes@.len() as int),
            drawn_weights(final(g).nodes@, old(g).nodes@.len() as int, draws@),
            he_weights(n, final(g).nodes@, draws@.len() as usize),
    {
        let ghost base = old(g).nodes@.len() as int;
        let nin = draws.len();
        let six = T::from_ratio(6, 1);
        let fan: usize = if nin > 1 {
            nin
        } else {
            1
        };
        let count = T::from_count(fan);
        let q = six.div(count);
        let scale = q.sqrt();
        assert(ratio(6i64, 1u64, six) && counted(fan, count) && divided(six, count, q) && sqrted(
            q,
            scale,
        ));
        assert(fan == at_least_one(nin));
        assert(counted(at_least_one(nin), count));
        assert(he_scale(nin, scale));
        let mut w: Vec<usize> = Vec::new();
        let mut i: usize = 0;
        while i < nin
            invariant
                i <= nin,
                nin == draws@.len(),
                g.wf(),
                g.same_constants(&*old(g)),
                extends(old(g).nodes@, g.nodes@, i as int),
                leaves_from(g.nodes@, base),
                base == old(g).nodes@.len(),
                w@ == index_range(base, i as int),
                g.grads_zero_from(base),
                forall|j: int|
                    0 <= j < i ==> multiplied(draws@[j], scale, #[trigger] g.nodes@[base + j].data),
            decreases nin - i,
        {
            let ghost before = g.nodes@;
            let u = draws[i];
            let v = u.mul(scale);
            assert(multiplied(u, scale, v));
            let k = g.value(v);
            w.push(k);
            assert forall|j: int| 0 <= j < i + 1 implies multiplied(
                draws@[j],
                scale,
                #[trigger] g.nodes@[base + j].data,
            ) by {
                if j < i {
                    assert(g.nodes@[base + j] == before[base + j]);
                }
            }
            i = i + 1;
            assert(w@ =~= index_range(base, i as int));
        }
        let ghost before_bias = g.nodes@;
        let zero = g.zero;
        let b = g.value(zero);
        let n = Neuron { w, b, nonlin };
        assert(n.params() =~= index_range(base, nin + 1));
        assert forall|j: int| 0 <= j < nin implies multiplied(
            draws@[j],
            scale,
            #[trigger] g.nodes@[base + j].data,
        ) by {
            assert(g.nodes@[base + j] == before_bias[base + j]);
        }
        assert forall|j: int| 0 <= j < n.weights().len() implies scaled_value(
            scale,
            #[trigger] g.nodes@[n.weights()[j] as int].data,
        ) by {
            assert(n.weights()[j] == base + j);
            assert(multiplied(draws@[j], scale, g.nodes@[base + j].data));
        }
        assert(draws@.len() as usize == nin);
        assert(he_scale(draws@.len() as usize, scale));
        assert(drawn_weights(g.nodes@, base, draws@));
        n
    }

    /// Forward pass over the input indices `x`: appends `w_i * x_i` and the
    /// running sum for each weight that has an input (the shorter of the two
    /// lists decides), starting the sum from the bias, then a ReLU node if the
    /// neuron is nonlinear. Returns the output index.
    #[verifier::spinoff_prover]
    pub fn forward<T: Scalar>(&self, g: &mut Graph<T>, x: &[usize]) -> (r: usize)
        requires
            old(g).wf(),
            self.fits(old(g).nodes@.len() as int),
            all_below(x@, old(g).nodes@.len() as int),
        ensures
            final(g).wf(),
            final(g).same_constants(&*old(g)),
            extends(
                old(g).nodes@,
                final(g).nodes@,
                2 * self.used_inputs(x@) + if self.nonlinear() {
                    1int
                } else {
                    0int
                },
            ),
            forall|i: int|
                0 <= i < self.used_inputs(x@) ==> {
                    &&& final(g).nodes@[old(g).nodes@.len() + 2 * i].op == Op::<T>::Mul(
                        #[trigger] self.weights()[i],
                        x@[i],
                    )
                    &&& final(g).nodes@[old(g).nodes@.len() + 2 * i + 1].op == Op::<T>::Add(
                        running_sum(self.bias(), old(g).nodes@.len() as int, i) as usize,
                        (old(g).nodes@.len() + 2 * i) as usize,
                    )
                },
            r < final(g).nodes@.len(),
            r == self.output(x@.len() as int, old(g).nodes@.len() as int),
            self.nonlinear() ==> r == old(g).nodes@.len() + 2 * self.used_inputs(x@),
            self.nonlinear() ==> final(g).nodes@[r as int].op == Op::<T>::Relu(
                running_sum(
                    self.bias(),
                    old(g).nodes@.len() as int,
                    self.used_inputs(x@),
                ) as usize,
            ),
            !self.nonlinear() ==> r == running_sum(
                self.bias(),
                old(g).nodes@.len() as int,
                self.used_inputs(x@),
            ),
            self.appended(final(g).nodes@, x@, old(g).nodes@.len() as int),
            computed_between(
                final(g).nodes@,
                old(g).nodes@.len() as int,
                final(g).nodes@.len() as int,
            ),
            final(g).grads_zero_from(old(g).nodes@.len() as int),
            forall|i: int|
                0 <= i < self.used_inputs(x@) ==> {
                    let nodes = final(g).nodes@;
                    let prod = old(g).nodes@.len() + 2 * i;
                    &&& multiplied(
                        nodes[#[trigger] self.weights()[i] as int].data,
                        nodes[x@[i] as int].data,
                        nodes[prod].data,
                    )
                    &&& added(
                        nodes[running_sum(self.bias(), old(g).nodes@.len() as int, i)].data,
                        nodes[prod].data,
                        nodes[prod + 1].data,
                    )
                },
            self.nonlinear() ==> relued(
                final(g).nodes@[running_sum(
                    self.bias(),
                    old(g).nodes@.len() as int,
                    self.used_inputs(x@),
                )].data,
                final(g).nodes@[r as int].data,
            ),
    {
        let ghost base = old(g).nodes@.len() as int;
        let m = if self.w.len() < x.len() {
            self.w.len()
        } else {
            x.len()
        };
        let mut acc = self.b;
        let mut i: usize = 0;
        assert(self.params()[self.weights().len() as int] == self.b);
        while i < m
            invariant
                i <= m,
                m == min_len(self.weights().len() as int, x@.len() as int),
                base == old(g).nodes@.len(),
                g.wf(),
                g.same_constants(&*old(g)),
                self.fits(old(g).nodes@.len() as int),
                all_below(x@, old(g).nodes@.len() as int),
                extends(old(g).nodes@, g.nodes@, 2 * i),
                acc == running_sum(self.bias(), base, i as int),
                acc < g.nodes@.len(),
                computed_between(g.nodes@, base, g.nodes@.len() as int),
                g.grads_zero_from(base),
                forall|j: int|
                    0 <= j < i ==> {
                        &&& g.nodes@[base + 2 * j].op == Op::<T>::Mul(
                            #[trigger] self.weights()[j],
                            x@[j],
                        )
                        &&& g.nodes@[base + 2 * j + 1].op == Op::<T>::Add(
                            running_sum(self.bias(), base, j) as usize,
                            (base + 2 * j) as usize,
                        )
                    },
            decreases m - i,
        {
            assert(self.params()[i as int] == self.w@[i as int]);
            let ghost before = g.nodes@;
            let prod = g.mul(self.w[i], x[i]);
            let ghost mid = g.nodes@;
            let ghost sum_before = acc;
            proof {
                lemma_computed_append(before, mid, base);
                lemma_grads_zero_append(before, mid, base, g.zero);
            }
            acc = g.add(acc, prod);
            proof {
                lemma_computed_append(mid, g.nodes@, base);
                lemma_grads_zero_append(mid, g.nodes@, base, g.zero);
            }
            assert forall|j: int| 0 <= j <= i implies {
                &&& g.nodes@[base + 2 * j].op == Op::<T>::Mul(
                    #[trigger] self.weights()[j],
                    x@[j],
                )
                &&& g.nodes@[base + 2 * j + 1].op == Op::<T>::Add(
                    running_sum(self.bias(), base, j) as usize,
                    (base + 2 * j) as usize,
                )
            } by {
                if j < i {
                    assert(before[base + 2 * j].op == Op::<T>::Mul(self.weights()[j], x@[j]));
                    assert(mid[base + 2 * j] == before[base + 2 * j]);
                    assert(mid[base + 2 * j + 1] == before[base + 2 * j + 1]);
                    assert(g.nodes@[base + 2 * j] == mid[base + 2 * j]);
                    assert(g.nodes@[base + 2 * j + 1] == mid[base + 2 * j + 1]);
                } else {
                    assert(j == i);
                    assert(prod == base + 2 * j);
                    assert(mid[base + 2 * j].op == Op::<T>::Mul(self.w@[j], x@[j]));
                    assert(g.nodes@[base + 2 * j] == mid[base + 2 * j]);
                    assert(g.nodes@[base + 2 * j + 1].op == Op::<T>::Add(sum_before, prod));
                }
            }
            i = i + 1;
        }
        let ghost before = g.nodes@;
        let r = if self.nonlin {
            let r = g.relu(acc);
            proof {
                lemma_computed_append(before, g.nodes@, base);
                lemma_grads_zero_append(before, g.nodes@, base, g.zero);
            }
            r
        } else {
            acc
        };
        assert forall|j: int| 0 <= j < m implies {
            &&& g.nodes@[base + 2 * j].op == Op::<T>::Mul(#[trigger] self.weights()[j], x@[j])
            &&& g.nodes@[base + 2 * j + 1].op == Op::<T>::Add(
                running_sum(self.bias(), base, j) as usize,
                (base + 2 * j) as usize,
            )
        } by {
            assert(before[base + 2 * j].op == Op::<T>::Mul(self.weights()[j], x@[j]));
            assert(g.nodes@[base + 2 * j] == before[base + 2 * j]);
            assert(g.nodes@[base + 2 * j + 1] == before[base + 2 * j + 1]);
        }
        assert(self.params()[self.weights().len() as int] == self.bias());
        assert forall|k: int| 0 <= k < base implies #[trigger] g.nodes@[k] == old(g).nodes@[k] by {
            assert(g.nodes@[k] == before[k]);
        }
        assert(self.used_inputs(x@) == m);
        assert(self.appended(g.nodes@, x@, base));
        assert forall|i: int| 0 <= i < m implies {
            let nodes = g.nodes@;
            let prod = base + 2 * i;
            &&& multiplied(
                nodes[#[trigger] self.weights()[i] as int].data,
                nodes[x@[i] as int].data,
                nodes[prod].data,
            )
            &&& added(
                nodes[running_sum(self.bias(), base, i)].data,
                nodes[prod].data,
                nodes[prod + 1].data,
            )
        } by {
            assert(g.nodes@[base + 2 * i].op == Op::<T>::Mul(self.weights()[i], x@[i]));
            assert(node_computed(g.nodes@, base + 2 * i));
            assert(node_computed(g.nodes@, base + 2 * i + 1));
        }
        if self.nonlin {
            assert(node_computed(g.nodes@, r as int));
        }
        r
    }

    /// The trainable indices: the weights, then the bias.
    pub fn parameters(&self) -> (p: Vec<usize>)
        ensures
            p@ == self.params(),
    {
        let mut p: Vec<usize> = Vec::new();
        let mut i: usize = 0;
        while i < self.w.len()
            invariant
                i <= self.w@.len(),
                p@ == self.w@.take(i as int),
            decreases self.w.len() - i,
        {
            p.push(self.w[i]);
            i = i + 1;
            assert(p@ =~= self.w@.take(i as int));
        }
        p.push(self.b);
        assert(p@ =~= self.params());
        p
    }
}

/// The parameters of `ns`, neuron after neuron.
pub open spec fn flat_params(ns: Seq<Neuron>) -> Seq<usize>
    decreases ns.len(),
{
    if ns.len() == 0 {
        Seq::empty()
    } else {
        flat_params(ns.drop_last()) + ns.last().params()
    }
}

/// How many nodes the forward passes of `ns`, one after the other over
/// `n_inputs` inputs, append.
pub open spec fn layer_growth(ns: Seq<Neuron>, n_inputs: int) -> int
    decreases ns.len(),
{
    if ns.len() == 0 {
        0
    } else {
        layer_growth(ns.drop_last(), n_inputs) + ns.last().growth(n_inputs)
    }
}

/// The output nodes of the forward passes of `ns`, one after the other over
/// `n_inputs` inputs, starting on an arena of `base` nodes.
pub open spec fn layer_outputs(ns: Seq<Neuron>, n_inputs: int, base: int) -> Seq<usize>
    decreases ns.len(),
{
    if ns.len() == 0 {
        Seq::empty()
    } else {
        layer_outputs(ns.drop_last(), n_inputs, base).push(
            ns.last().output(n_inputs, base + layer_growth(ns.drop_last(), n_inputs)) as usize,
        )
    }
}

/// The nodes that the forward passes of `ns`, one after the other over the
/// inputs `x`, append on an arena of `base` nodes, as `nodes` holds them:
/// each neuron's block right above the one before.
pub open spec fn layer_appended<T>(ns: Seq<Neuron>, nodes: Seq<Node<T>>, x: Seq<usize>, base: int) -> bool
    decreases ns.len(),
{
    if ns.len() == 0 {
        true
    } else {
        layer_appended(ns.drop_last(), nodes, x, base) && ns.last().appended(
            nodes,
            x,
            base + layer_growth(ns.drop_last(), x.len() as int),
        )
    }
}

/// Appending more nodes keeps what the forward passes of a layer appended.
pub proof fn lemma_layer_appended_kept<T>(
    ns: Seq<Neuron>,
    nodes: Seq<Node<T>>,
    later: Seq<Node<T>>,
    x: Seq<usize>,
    base: int,
)
    requires
        layer_appended(ns, nodes, x, base),
        grows(nodes, later),
        0 <= base,
        base + layer_growth(ns, x.len() as int) <= nodes.len(),
    ensures
        layer_appended(ns, later, x, base),
    decreases ns.len(),
{
    if ns.len() > 0 {
        lemma_layer_growth_nonneg(ns.drop_last(), x.len() as int);
        assert(ns.last().growth(x.len() as int) >= 0);
        lemma_layer_appended_kept(ns.drop_last(), nodes, later, x, base);
        ns.last().lemma_appended_kept(
            nodes,
            later,
            x,
            base + layer_growth(ns.drop_last(), x.len() as int),
        );
    }
}

proof fn lemma_layer_growth_nonneg(ns: Seq<Neuron>, n_inputs: int)
    requires
        n_inputs >= 0,
    ensures
        layer_growth(ns, n_inputs) >= 0,
    decreases ns.len(),
{
    if ns.len() > 0 {
        lemma_layer_growth_nonneg(ns.drop_last(), n_inputs);
    }
}

/// A fully-connected layer: each neuron reads the same inputs.
pub struct Layer {
    neurons: Vec<Neuron>,
}

impl Layer {
    /// The neurons, in order.
    pub closed spec fn neuron_seq(&self) -> Seq<Neuron> {
        self.neurons@
    }

    /// The parameters of every neuron, neuron after neuron.
    pub open spec fn params(&self) -> Seq<usize> {
        flat_params(self.neuron_seq())
    }

    /// Every neuron's parameters lie in an arena of `len` nodes.
    pub open spec fn fits(&self, len: int) -> bool {
        forall|k: int| 0 <= k < self.neuron_seq().len() ==> #[trigger] self.neuron_seq()[k].fits(len)
    }

    /// `nout` neurons of `nin` weights each, all nonlinear or all linear.
    pub open spec fn shaped(&self, nin: int, nout: int, nonlin: bool) -> bool {
        &&& self.neuron_seq().len() == nout
        &&& forall|k: int|
            0 <= k < nout ==> (#[trigger] self.neuron_seq()[k]).weights().len() == nin
                && self.neuron_seq()[k].nonlinear() == nonlin
    }

    /// `nout` neurons over `nin` inputs, built one after the other.
    pub fn new<T: Scalar, I: WeightInit<T>>(
        g: &mut Graph<T>,
        init: &mut I,
        nin: usize,
        nout: usize,
        nonlin: bool,
    ) -> (l: Layer)
        requires
            old(g).wf(),
        ensures
            final(g).wf(),
            final(g).same_constants(&*old(g)),
            extends(old(g).nodes@, final(g).nodes@, nout * (nin + 1)),
            leaves_from(final(g).nodes@, old(g).nodes@.len() as int),
            l.shaped(nin as int, nout as int, nonlin),
            l.params() == index_range(old(g).nodes@.len() as int, nout * (nin + 1)),
            l.fits(final(g).nodes@.len() as int),
            final(g).grads_zero_from(old(g).nodes@.len() as int),
            biases_zero(l.neuron_seq(), final(g).nodes@, final(g).zero),
            layer_he_weights(l, final(g).nodes@, nin),
            layer_weights_from::<T, I>(l, final(g).nodes@),
    {
        let ghost base = old(g).nodes@.len() as int;
        let mut neurons: Vec<Neuron> = Vec::new();
        let mut k: usize = 0;
        while k < nout
            invariant
                k <= nout,
                base == old(g).nodes@.len(),
                g.wf(),
                g.same_constants(&*old(g)),
                extends(old(g).nodes@, g.nodes@, k * (nin + 1)),
                leaves_from(g.nodes@, base),
                neurons@.len() == k,
                forall|j: int|
                    0 <= j < k ==> (#[trigger] neurons@[j]).weights().len() == nin
                        && neurons@[j].nonlinear() == nonlin && neurons@[j].fits(
                        g.nodes@.len() as int,
                    ),
                flat_params(neurons@) == index_range(base, k * (nin + 1)),
                g.grads_zero_from(base),
                biases_zero(neurons@, g.nodes@, g.zero),
                forall|j: int| 0 <= j < k ==> he_weights(#[trigger] neurons@[j], g.nodes@, nin),
                forall|j: int| 0 <= j < k ==> weights_from::<T, I>(#[trigger] neurons@[j], g.nodes@),
            decreases nout - k,
        {
            let ghost before = g.nodes@;
            let n = Neuron::new(g, init, nin, nonlin);
            proof {
                assert forall|i: int| base <= i < g.nodes@.len() implies #[trigger] g.nodes@[i].grad
                    == g.zero by {
                    if i < before.len() {
                        assert(g.nodes@[i] == before[i]);
                    }
                }
                assert((k + 1) * (nin + 1) == k * (nin + 1) + (nin + 1)) by (nonlinear_arith);
                assert forall|i: int| 0 <= i < base implies #[trigger] g.nodes@[i] == old(
                    g,
                ).nodes@[i] by {
                    assert(g.nodes@[i] == before[i]);
                }
                assert forall|i: int| base <= i < g.nodes@.len() implies #[trigger] g.nodes@[i].op
                    == Op::<T>::Leaf by {
                    if i < before.len() {
                        assert(g.nodes@[i] == before[i]);
                    }
                }
            }
            let ghost prev = neurons@;
            neurons.push(n);
            proof {
                assert(neurons@.drop_last() =~= prev);
                assert(flat_params(neurons@) =~= index_range(base, (k + 1) * (nin + 1)));
                assert forall|j: int| 0 <= j < k + 1 implies (#[trigger] neurons@[j]).weights().len()
                    == nin && neurons@[j].nonlinear() == nonlin && neurons@[j].fits(
                    g.nodes@.len() as int,
                ) by {
                    if j < k {
                        assert(neurons@[j] == prev[j]);
                    }
                }
                assert forall|j: int| 0 <= j < k + 1 implies he_weights(
                    #[trigger] neurons@[j],
                    g.nodes@,
                    nin,
                ) by {
                    if j < k {
                        assert(neurons@[j] == prev[j]);
                        lemma_he_weights_kept(prev[j], before, g.nodes@, nin);
                    }
                }
                assert forall|j: int| 0 <= j < k + 1 implies weights_from::<T, I>(
                    #[trigger] neurons@[j],
                    g.nodes@,
                ) by {
                    if j < k {
                        assert(neurons@[j] == prev[j]);
                        lemma_weights_from_kept::<T, I>(prev[j], before, g.nodes@);
                    }
                }
                assert forall|j: int| 0 <= j < k + 1 implies #[trigger] g.nodes@[neurons@[j].bias() as int].data
                    == g.zero by {
                    if j < k {
                        assert(neurons@[j] == prev[j]);
                        let nj = prev[j];
                        assert(nj.fits(before.len() as int));
                        assert(nj.params()[nj.weights().len() as int] == nj.bias());
                        assert(g.nodes@[nj.bias() as int] == before[nj.bias() as int]);
                    }
                }
            }
            k = k + 1;
        }
        Layer { neurons }
    }

    /// Each neuron's forward pass over `x`, in order; one output per neuron.
    pub fn forward<T: Scalar>(&self, g: &mut Graph<T>, x: &[usize]) -> (out: Vec<usize>)
        requires
            old(g).wf(),
            self.fits(old(g).nodes@.len() as int),
            all_below(x@, old(g).nodes@.len() as int),
        ensures
            final(g).wf(),
            final(g).same_constants(&*old(g)),
            grows(old(g).nodes@, final(g).nodes@),
            extends(
                old(g).nodes@,
                final(g).nodes@,
                layer_growth(self.neuron_seq(), x@.len() as int),
            ),
            out@ == layer_outputs(
                self.neuron_seq(),
                x@.len() as int,
                old(g).nodes@.len() as int,
            ),
            out@.len() == self.neuron_seq().len(),
            all_below(out@, final(g).nodes@.len() as int),
            layer_appended(self.neuron_seq(), final(g).nodes@, x@, old(g).nodes@.len() as int),
            computed_between(
                final(g).nodes@,
                old(g).nodes@.len() as int,
                final(g).nodes@.len() as int,
            ),
            final(g).grads_zero_from(old(g).nodes@.len() as int),
    {
        let ghost ns = self.neuron_seq();
        let ghost xl = x@.len() as int;
        let ghost base = old(g).nodes@.len() as int;
        let mut out: Vec<usize> = Vec::new();
        let mut k: usize = 0;
        while k < self.neurons.len()
            invariant
                k <= ns.len(),
                ns == self.neuron_seq(),
                xl == x@.len(),
                base == old(g).nodes@.len(),
                g.wf(),
                g.same_constants(&*old(g)),
                extends(old(g).nodes@, g.nodes@, layer_growth(ns.take(k as int), xl)),
                self.fits(old(g).nodes@.len() as int),
                all_below(x@, old(g).nodes@.len() as int),
                out@ == layer_outputs(ns.take(k as int), xl, base),
                out@.len() == k,
                all_below(out@, g.nodes@.len() as int),
                layer_appended(ns.take(k as int), g.nodes@, x@, base),
                computed_between(g.nodes@, base, g.nodes@.len() as int),
                g.grads_zero_from(base),
            decreases ns.len() - k,
        {
            let ghost before = g.nodes@;
            proof {
                lemma_layer_growth_nonneg(ns.take(k as int), xl);
            }
            assert(self.neuron_seq()[k as int].fits(old(g).nodes@.len() as int));
            assert(self.neuron_seq()[k as int].fits(g.nodes@.len() as int));
            let r = self.neurons[k].forward(g, x);
            proof {
                let pre = ns.take(k as int);
                let post = ns.take(k + 1);
                assert(post.drop_last() =~= pre);
                assert(post.last() == ns[k as int]);
                lemma_computed_append(before, g.nodes@, base);
                lemma_grads_zero_append(before, g.nodes@, base, g.zero);
                lemma_layer_appended_kept(pre, before, g.nodes@, x@, base);
                assert forall|i: int| 0 <= i < old(g).nodes@.len() implies #[trigger] g.nodes@[i]
                    == old(g).nodes@[i] by {
                    assert(g.nodes@[i] == before[i]);
                }
            }
            out.push(r);
            k = k + 1;
        }
        assert(ns.take(k as int) =~= ns);
        proof {
            lemma_layer_growth_nonneg(ns, xl);
        }
        out
    }

    /// Every neuron's parameters, neuron after neuron.
    pub fn parameters(&self) -> (p: Vec<usize>)
        ensures
            p@ == self.params(),
    {
        let mut p: Vec<usize> = Vec::new();
        let mut k: usize = 0;
        while k < self.neurons.len()
            invariant
                k <= self.neuron_seq().len(),
                p@ == flat_params(self.neuron_seq().take(k as int)),
            decreases self.neuron_seq().len() - k,
        {
            let mut q = self.neurons[k].parameters();
            p.append(&mut q);
            assert(self.neuron_seq().take(k + 1).drop_last() =~= self.neuron_seq().take(k as int));
            k = k + 1;
        }
        assert(self.neuron_seq().take(k as int) =~= self.neuron_seq());
        p
    }

    /// The layer's neurons, for per-neuron introspection.
    pub fn neurons(&self) -> (ns: &[Neuron])
        ensures
            ns@ == self.neuron_seq(),
    {
        self.neurons.as_slice()
    }
}

/// The number of inputs of layer `l` in a network with `nin` inputs whose
/// layers have `nouts` neurons each.
pub open spec fn fan_in(nin: int, nouts: Seq<usize>, l: int) -> int {
    if l == 0 {
        nin
    } else {
        nouts[l - 1] as int
    }
}

/// How many parameters such a network has: each neuron has one weight per
/// input of its layer, plus a bias.
pub open spec fn param_count(nin: int, nouts: Seq<usize>) -> int
    decreases nouts.len(),
{
    if nouts.len() == 0 {
        0
    } else {
        param_count(nin, nouts.drop_last()) + nouts.last() * (fan_in(
            nin,
            nouts,
            nouts.len() - 1,
        ) + 1)
    }
}

/// A network has a count of parameters that is never negative.
pub proof fn lemma_param_count_nonneg(nin: int, nouts: Seq<usize>)
    requires
        nin >= 0,
    ensures
        param_count(nin, nouts) >= 0,
    decreases nouts.len(),
{
    if nouts.len() > 0 {
        lemma_param_count_nonneg(nin, nouts.drop_last());
        let a = nouts.last() as int;
        let b = fan_in(nin, nouts, nouts.len() - 1) + 1;
        assert(a * b >= 0) by (nonlinear_arith)
            requires
                a >= 0,
                b >= 0,
        ;
    }
}

/// The parameters of `ls`, layer after layer.
pub open spec fn layers_params(ls: Seq<Layer>) -> Seq<usize>
    decreases ls.len(),
{
    if ls.len() == 0 {
        Seq::empty()
    } else {
        layers_params(ls.drop_last()) + ls.last().params()
    }
}

proof fn lemma_flat_params_fit(ns: Seq<Neuron>, len: int)
    requires
        forall|k: int| 0 <= k < ns.len() ==> #[trigger] ns[k].fits(len),
    ensures
        all_below(flat_params(ns), len),
    decreases ns.len(),
{
    if ns.len() > 0 {
        lemma_flat_params_fit(ns.drop_last(), len);
        assert(ns.last().fits(len));
    }
}

proof fn lemma_layers_params_fit(ls: Seq<Layer>, len: int)
    requires
        forall|l: int| 0 <= l < ls.len() ==> #[trigger] ls[l].fits(len),
    ensures
        all_below(layers_params(ls), len),
    decreases ls.len(),
{
    if ls.len() > 0 {
        lemma_layers_params_fit(ls.drop_last(), len);
        assert(ls.last().fits(len));
        let ns = ls.last().neuron_seq();
        assert forall|k: int| 0 <= k < ns.len() implies #[trigger] ns[k].fits(len) by {}
        lemma_flat_params_fit(ns, len);
    }
}

/// A network whose last layer has a neuron has a parameter.
pub proof fn lemma_layer_params_nonempty(ls: Seq<Layer>)
    requires
        ls.len() > 0,
        ls.last().neuron_seq().len() > 0,
    ensures
        layers_params(ls).len() > 0,
{
    let ns = ls.last().neuron_seq();
    assert(flat_params(ns) == flat_params(ns.drop_last()) + ns.last().params());
    assert(layers_params(ls) == layers_params(ls.drop_last()) + ls.last().params());
}

proof fn lemma_layer_outputs_len(ns: Seq<Neuron>, n_inputs: int, base: int)
    ensures
        layer_outputs(ns, n_inputs, base).len() == ns.len(),
    decreases ns.len(),
{
    if ns.len() > 0 {
        lemma_layer_outputs_len(ns.drop_last(), n_inputs, base);
    }
}

/// How many outputs the layers `ls`, run in turn over `n_inputs` inputs,
/// give: one per neuron of the last layer (the inputs themselves when there
/// is no layer).
pub open spec fn width_after(ls: Seq<Layer>, n_inputs: int) -> int {
    if ls.len() == 0 {
        n_inputs
    } else {
        ls.last().neuron_seq().len() as int
    }
}

/// How many nodes the forward passes of the layers `ls`, run in turn over
/// `n_inputs` inputs, append.
pub open spec fn network_growth(ls: Seq<Layer>, n_inputs: int) -> int
    decreases ls.len(),
{
    if ls.len() == 0 {
        0
    } else {
        network_growth(ls.drop_last(), n_inputs) + layer_growth(
            ls.last().neuron_seq(),
            width_after(ls.drop_last(), n_inputs),
        )
    }
}

/// The outputs of the layers `ls` run in turn over the inputs `x`, starting
/// on an arena of `base` nodes: each layer reads the outputs of the one before.
pub open spec fn network_outputs(ls: Seq<Layer>, x: Seq<usize>, base: int) -> Seq<usize>
    decreases ls.len(),
{
    if ls.len() == 0 {
        x
    } else {
        layer_outputs(
            ls.last().neuron_seq(),
            width_after(ls.drop_last(), x.len() as int),
            base + network_growth(ls.drop_last(), x.len() as int),
        )
    }
}

/// The nodes that the forward passes of the layers `ls`, run in turn over
/// the inputs `x`, append on an arena of `base` nodes, as `nodes` holds them:
/// each layer's neurons read the outputs of the layer before, and its block
/// lies right above that layer's.
pub open spec fn network_appended<T>(ls: Seq<Layer>, nodes: Seq<Node<T>>, x: Seq<usize>, base: int) -> bool
    decreases ls.len(),
{
    if ls.len() == 0 {
        true
    } else {
        network_appended(ls.drop_last(), nodes, x, base) && layer_appended(
            ls.last().neuron_seq(),
            nodes,
            network_outputs(ls.drop_last(), x, base),
            base + network_growth(ls.drop_last(), x.len() as int),
        )
    }
}

/// Appending more nodes keeps what the forward passes of a network appended.
pub proof fn lemma_network_appended_kept<T>(
    ls: Seq<Layer>,
    nodes: Seq<Node<T>>,
    later: Seq<Node<T>>,
    x: Seq<usize>,
    base: int,
)
    requires
        network_appended(ls, nodes, x, base),
        grows(nodes, later),
        0 <= base,
        base + network_growth(ls, x.len() as int) <= nodes.len(),
    ensures
        network_appended(ls, later, x, base),
    decreases ls.len(),
{
    if ls.len() > 0 {
        let pre = ls.drop_last();
        lemma_network_growth_nonneg(pre, x.len() as int);
        lemma_network_outputs_len(pre, x, base);
        lemma_layer_growth_nonneg(ls.last().neuron_seq(), width_after(pre, x.len() as int));
        lemma_network_appended_kept(pre, nodes, later, x, base);
        lemma_layer_appended_kept(
            ls.last().neuron_seq(),
            nodes,
            later,
            network_outputs(pre, x, base),
            base + network_growth(pre, x.len() as int),
        );
    }
}

proof fn lemma_layer_outputs_below(ns: Seq<Neuron>, n_inputs: int, base: int, len: int)
    requires
        forall|k: int| 0 <= k < ns.len() ==> #[trigger] ns[k].fits(len),
        0 <= len <= base,
        n_inputs >= 0,
    ensures
        forall|i: int|
            0 <= i < layer_outputs(ns, n_inputs, base).len() ==> #[trigger] layer_outputs(
                ns,
                n_inputs,
                base,
            )[i] < base + layer_growth(ns, n_inputs),
    decreases ns.len(),
{
    if ns.len() > 0 {
        let pre = ns.drop_last();
        assert forall|k: int| 0 <= k < pre.len() implies #[trigger] pre[k].fits(len) by {
            assert(pre[k] == ns[k]);
        }
        lemma_layer_outputs_below(pre, n_inputs, base, len);
        lemma_layer_growth_nonneg(pre, n_inputs);
        lemma_layer_outputs_len(pre, n_inputs, base);
        let last = ns.last();
        assert(last.fits(len));
        assert(last.params()[last.weights().len() as int] == last.bias());
        let outs = layer_outputs(ns, n_inputs, base);
        assert forall|i: int| 0 <= i < outs.len() implies #[trigger] outs[i] < base + layer_growth(
            ns,
            n_inputs,
        ) by {
            if i < pre.len() {
                assert(outs[i] == layer_outputs(pre, n_inputs, base)[i]);
            }
        }
    }
}

/// Every output of a network with a layer lies below the top of its forward
/// pass.
pub proof fn lemma_network_outputs_below(ls: Seq<Layer>, x: Seq<usize>, base: int)
    requires
        ls.len() > 0,
        forall|l: int| 0 <= l < ls.len() ==> #[trigger] ls[l].fits(base),
        0 <= base,
    ensures
        forall|i: int|
            0 <= i < network_outputs(ls, x, base).len() ==> #[trigger] network_outputs(
                ls,
                x,
                base,
            )[i] < base + network_growth(ls, x.len() as int),
{
    let pre = ls.drop_last();
    lemma_network_growth_nonneg(pre, x.len() as int);
    let ns = ls.last().neuron_seq();
    assert(ls.last().fits(base));
    assert forall|k: int| 0 <= k < ns.len() implies #[trigger] ns[k].fits(base) by {}
    lemma_layer_outputs_below(
        ns,
        width_after(pre, x.len() as int),
        base + network_growth(pre, x.len() as int),
        base,
    );
}

/// `a` and `b` have the same operation at every node from `lo` up to `hi`.
pub open spec fn same_ops_between<T>(a: Seq<Node<T>>, b: Seq<Node<T>>, lo: int, hi: int) -> bool {
    forall|k: int| lo <= k < hi ==> #[trigger] a[k].op == b[k].op
}

/// No node of `a` from `lo` up to `hi` is a leaf.
pub open spec fn no_leaf_between<T>(a: Seq<Node<T>>, lo: int, hi: int) -> bool {
    forall|k: int| lo <= k < hi ==> !(#[trigger] a[k].op is Leaf)
}

proof fn lemma_neuron_appended_by_ops<T>(
    n: Neuron,
    a: Seq<Node<T>>,
    b: Seq<Node<T>>,
    x: Seq<usize>,
    base: int,
)
    requires
        n.appended(a, x, base),
        same_ops_between(a, b, base, base + n.growth(x.len() as int)),
    ensures
        n.appended(b, x, base),
{
    let u = n.used_inputs(x);
    assert forall|i: int| 0 <= i < u implies {
        &&& b[base + 2 * i].op == Op::<T>::Mul(#[trigger] n.weights()[i], x[i])
        &&& b[base + 2 * i + 1].op == Op::<T>::Add(
            running_sum(n.bias(), base, i) as usize,
            (base + 2 * i) as usize,
        )
    } by {
        assert(a[base + 2 * i].op == b[base + 2 * i].op);
        assert(a[base + 2 * i + 1].op == b[base + 2 * i + 1].op);
    }
    if n.nonlinear() {
        assert(a[base + 2 * u].op == b[base + 2 * u].op);
    }
}

proof fn lemma_layer_appended_by_ops<T>(
    ns: Seq<Neuron>,
    a: Seq<Node<T>>,
    b: Seq<Node<T>>,
    x: Seq<usize>,
    base: int,
)
    requires
        layer_appended(ns, a, x, base),
        same_ops_between(a, b, base, base + layer_growth(ns, x.len() as int)),
    ensures
        layer_appended(ns, b, x, base),
    decreases ns.len(),
{
    if ns.len() > 0 {
        let pre = ns.drop_last();
        let mid = base + layer_growth(pre, x.len() as int);
        lemma_layer_growth_nonneg(pre, x.len() as int);
        assert(ns.last().growth(x.len() as int) >= 0);
        assert(same_ops_between(a, b, base, mid));
        assert(same_ops_between(a, b, mid, mid + ns.last().growth(x.len() as int)));
        lemma_layer_appended_by_ops(pre, a, b, x, base);
        lemma_neuron_appended_by_ops(ns.last(), a, b, x, mid);
    }
}

/// The forward pass a network appends is a matter of operations alone:
/// another arena with the same operations over that block holds it too.
pub proof fn lemma_network_appended_by_ops<T>(
    ls: Seq<Layer>,
    a: Seq<Node<T>>,
    b: Seq<Node<T>>,
    x: Seq<usize>,
    base: int,
)
    requires
        network_appended(ls, a, x, base),
        same_ops_between(a, b, base, base + network_growth(ls, x.len() as int)),
    ensures
        network_appended(ls, b, x, base),
    decreases ls.len(),
{
    if ls.len() > 0 {
        let pre = ls.drop_last();
        let mid = base + network_growth(pre, x.len() as int);
        let h = network_outputs(pre, x, base);
        lemma_network_growth_nonneg(pre, x.len() as int);
        lemma_network_outputs_len(pre, x, base);
        lemma_layer_growth_nonneg(ls.last().neuron_seq(), h.len() as int);
        assert(same_ops_between(a, b, base, mid));
        assert(same_ops_between(
            a,
            b,
            mid,
            mid + layer_growth(ls.last().neuron_seq(), h.len() as int),
        ));
        lemma_network_appended_by_ops(pre, a, b, x, base);
        lemma_layer_appended_by_ops(ls.last().neuron_seq(), a, b, h, mid);
    }
}

proof fn lemma_neuron_same_ops<T>(
    n: Neuron,
    a: Seq<Node<T>>,
    b: Seq<Node<T>>,
    x: Seq<usize>,
    base: int,
)
    requires
        n.appended(a, x, base),
        n.appended(b, x, base),
    ensures
        same_ops_between(a, b, base, base + n.growth(x.len() as int)),
        no_leaf_between(a, base, base + n.growth(x.len() as int)),
{
    let u = n.used_inputs(x);
    assert forall|k: int| base <= k < base + n.growth(x.len() as int) implies #[trigger] a[k].op
        == b[k].op && !(a[k].op is Leaf) by {
        if k < base + 2 * u {
            let i = (k - base) / 2;
            assert(0 <= i < u && (k == base + 2 * i || k == base + 2 * i + 1)) by (nonlinear_arith)
                requires
                    base <= k < base + 2 * u,
                    i == (k - base) / 2,
            ;
            assert(a[base + 2 * i].op == Op::<T>::Mul(n.weights()[i], x[i]));
            assert(b[base + 2 * i].op == Op::<T>::Mul(n.weights()[i], x[i]));
        }
    }
}

proof fn lemma_layer_same_ops<T>(
    ns: Seq<Neuron>,
    a: Seq<Node<T>>,
    b: Seq<Node<T>>,
    x: Seq<usize>,
    base: int,
)
    requires
        layer_appended(ns, a, x, base),
        layer_appended(ns, b, x, base),
    ensures
        same_ops_between(a, b, base, base + layer_growth(ns, x.len() as int)),
        no_leaf_between(a, base, base + layer_growth(ns, x.len() as int)),
    decreases ns.len(),
{
    if ns.len() > 0 {
        let pre = ns.drop_last();
        let mid = base + layer_growth(pre, x.len() as int);
        lemma_layer_same_ops(pre, a, b, x, base);
        lemma_neuron_same_ops(ns.last(), a, b, x, mid);
        assert forall|k: int| base <= k < base + layer_growth(ns, x.len() as int) implies #[trigger] a[k].op
            == b[k].op && !(a[k].op is Leaf) by {
            if k < mid {
                assert(same_ops_between(a, b, base, mid));
                assert(no_leaf_between(a, base, mid));
            } else {
                assert(same_ops_between(a, b, mid, mid + ns.last().growth(x.len() as int)));
                assert(no_leaf_between(a, mid, mid + ns.last().growth(x.len() as int)));
            }
        }
    }
}

/// A forward pass is determined by the network and its inputs: two arenas
/// that both hold the forward pass of `ls` over `x` from node `base` up
/// have the same operation at every node of it (so
/// [`MLP::forward`] and [`MLP::forward_verbose`] append the same operations).
pub proof fn lemma_network_same_ops<T>(
    ls: Seq<Layer>,
    a: Seq<Node<T>>,
    b: Seq<Node<T>>,
    x: Seq<usize>,
    base: int,
)
    requires
        network_appended(ls, a, x, base),
        network_appended(ls, b, x, base),
    ensures
        same_ops_between(a, b, base, base + network_growth(ls, x.len() as int)),
        no_leaf_between(a, base, base + network_growth(ls, x.len() as int)),
    decreases ls.len(),
{
    if ls.len() > 0 {
        let pre = ls.drop_last();
        let mid = base + network_growth(pre, x.len() as int);
        let h = network_outputs(pre, x, base);
        lemma_network_same_ops(pre, a, b, x, base);
        lemma_network_outputs_len(pre, x, base);
        lemma_layer_same_ops(ls.last().neuron_seq(), a, b, h, mid);
        assert forall|k: int| base <= k < base + network_growth(ls, x.len() as int) implies #[trigger] a[k].op
            == b[k].op && !(a[k].op is Leaf) by {
            if k < mid {
                assert(same_ops_between(a, b, base, mid));
                assert(no_leaf_between(a, base, mid));
            } else {
                let top = mid + layer_growth(ls.last().neuron_seq(), h.len() as int);
                assert(same_ops_between(a, b, mid, top));
                assert(no_leaf_between(a, mid, top));
            }
        }
    }
}

/// With a functional scalar, a forward pass is a function of the arena
/// below it: two arenas that agree on the data below `base` and both hold
/// the forward pass of `ls` over `x` from `base` up agree on the data of
/// every node up to its top (so [`MLP::forward`] and
/// [`MLP::forward_verbose`] on equal arenas leave equal arenas, and the same
/// input gives the same outputs each time).
pub proof fn lemma_forward_functional<T: Scalar>(
    ls: Seq<Layer>,
    a: Seq<Node<T>>,
    b: Seq<Node<T>>,
    x: Seq<usize>,
    base: int,
)
    requires
        crate::engine::functional::<T>(),
        topo_ordered(a),
        0 <= base,
        base + network_growth(ls, x.len() as int) <= a.len(),
        base + network_growth(ls, x.len() as int) <= b.len(),
        forall|i: int| 0 <= i < base ==> #[trigger] a[i].data == b[i].data,
        network_appended(ls, a, x, base),
        network_appended(ls, b, x, base),
        computed_between(a, base, base + network_growth(ls, x.len() as int)),
        computed_between(b, base, base + network_growth(ls, x.len() as int)),
    ensures
        forall|i: int|
            0 <= i < base + network_growth(ls, x.len() as int) ==> #[trigger] a[i].data == b[i].data,
{
    let top = base + network_growth(ls, x.len() as int);
    lemma_network_growth_nonneg(ls, x.len() as int);
    lemma_network_same_ops(ls, a, b, x, base);
    assert forall|i: int| base <= i < top implies #[trigger] a[i].op == b[i].op by {}
    assert forall|i: int| base <= i < top && a[i].op is Leaf implies #[trigger] a[i].data == b[i].data by {
        assert(no_leaf_between(a, base, top));
    }
    crate::engine::lemma_computed_functional(a, b, base, top);
}

pub proof fn lemma_network_growth_nonneg(ls: Seq<Layer>, n_inputs: int)
    requires
        n_inputs >= 0,
    ensures
        network_growth(ls, n_inputs) >= 0,
    decreases ls.len(),
{
    if ls.len() > 0 {
        lemma_network_growth_nonneg(ls.drop_last(), n_inputs);
        lemma_layer_growth_nonneg(ls.last().neuron_seq(), width_after(ls.drop_last(), n_inputs));
    }
}

pub proof fn lemma_network_outputs_len(ls: Seq<Layer>, x: Seq<usize>, base: int)
    ensures
        network_outputs(ls, x, base).len() == width_after(ls, x.len() as int),
{
    if ls.len() > 0 {
        lemma_layer_outputs_len(
            ls.last().neuron_seq(),
            width_after(ls.drop_last(), x.len() as int),
            base + network_growth(ls.drop_last(), x.len() as int),
        );
    }
}

/// A multi-layer perceptron. Built by [`MLP::new`], every layer but the last
/// uses ReLU and the last is linear.
pub struct MLP {
    layers: Vec<Layer>,
}

impl MLP {
    /// The layers, in order.
    pub closed spec fn layer_seq(&self) -> Seq<Layer> {
        self.layers@
    }

    /// The whole network's parameters, layer after layer.
    pub open spec fn params(&self) -> Seq<usize> {
        layers_params(self.layer_seq())
    }

    /// Every parameter lies in an arena of `len` nodes.
    pub open spec fn fits(&self, len: int) -> bool {
        forall|l: int| 0 <= l < self.layer_seq().len() ==> #[trigger] self.layer_seq()[l].fits(len)
    }

    /// A network that fits an arena has all of its parameters in it.
    pub proof fn lemma_params_fit(&self, len: int)
        requires
            self.fits(len),
        ensures
            all_below(self.params(), len),
    {
        lemma_layers_params_fit(self.layer_seq(), len);
    }

    /// A network that fits an arena fits any larger one.
    pub proof fn lemma_fits_larger(&self, len: int, larger: int)
        requires
            self.fits(len),
            len <= larger,
        ensures
            self.fits(larger),
    {
        assert forall|l: int| 0 <= l < self.layer_seq().len() implies #[trigger] self.layer_seq()[l].fits(larger) by {
            let ns = self.layer_seq()[l].neuron_seq();
            assert(self.layer_seq()[l].fits(len));
            assert forall|k: int| 0 <= k < ns.len() implies #[trigger] ns[k].fits(larger) by {
                assert(ns[k].fits(len));
            }
        }
    }

    /// Layer `l` has `nouts[l]` neurons over the outputs of the layer before
    /// (over the `nin` inputs for the first), and uses ReLU unless it is last.
    pub open spec fn shaped(&self, nin: int, nouts: Seq<usize>) -> bool {
        &&& self.layer_seq().len() == nouts.len()
        &&& forall|l: int|
            0 <= l < nouts.len() ==> (#[trigger] self.layer_seq()[l]).shaped(
                fan_in(nin, nouts, l),
                nouts[l] as int,
                l + 1 < nouts.len(),
            )
    }

    /// How many outputs a forward pass over `n_inputs` inputs gives: one per
    /// neuron of the last layer.
    pub open spec fn output_width(&self, n_inputs: int) -> int {
        if self.layer_seq().len() == 0 {
            n_inputs
        } else {
            self.layer_seq().last().neuron_seq().len() as int
        }
    }

    /// `nin` inputs, then one layer per entry of `nouts`: for instance
    /// `nin = 2, nouts = [16, 16, 1]` is a 2-16-16-1 network. Every
    /// parameter is a new leaf, allocated in order on top of the arena.
    pub fn new<T: Scalar, I: WeightInit<T>>(
        g: &mut Graph<T>,
        init: &mut I,
        nin: usize,
        nouts: &[usize],
    ) -> (m: MLP)
        requires
            old(g).wf(),
            nouts@.len() > 0,
        ensures
            final(g).wf(),
            final(g).same_constants(&*old(g)),
            extends(old(g).nodes@, final(g).nodes@, param_count(nin as int, nouts@)),
            leaves_from(final(g).nodes@, old(g).nodes@.len() as int),
            m.shaped(nin as int, nouts@),
            m.params() == index_range(
                old(g).nodes@.len() as int,
                param_count(nin as int, nouts@),
            ),
            m.fits(final(g).nodes@.len() as int),
            final(g).grads_zero_from(old(g).nodes@.len() as int),
            forall|l: int|
                0 <= l < m.layer_seq().len() ==> biases_zero(
                    (#[trigger] m.layer_seq()[l]).neuron_seq(),
                    final(g).nodes@,
                    final(g).zero,
                ),
            forall|l: int|
                0 <= l < m.layer_seq().len() ==> layer_he_weights(
                    #[trigger] m.layer_seq()[l],
                    final(g).nodes@,
                    fan_in(nin as int, nouts@, l) as usize,
                ),
            forall|l: int|
                0 <= l < m.layer_seq().len() ==> layer_weights_from::<T, I>(
                    #[trigger] m.layer_seq()[l],
                    final(g).nodes@,
                ),
    {
        let ghost base = old(g).nodes@.len() as int;
        let mut sizes: Vec<usize> = Vec::new();
        sizes.push(nin);
        let mut j: usize = 0;
        while j < nouts.len()
            invariant
                j <= nouts@.len(),
                sizes@ == seq![nin] + nouts@.take(j as int),
            decreases nouts@.len() - j,
        {
            sizes.push(nouts[j]);
            j = j + 1;
            assert(sizes@ =~= seq![nin] + nouts@.take(j as int));
        }
        assert(nouts@.take(j as int) =~= nouts@);
        let last = nouts.len() - 1;
        let mut layers: Vec<Layer> = Vec::new();
        let mut i: usize = 0;
        while i < nouts.len()
            invariant
                i <= nouts@.len(),
                last == nouts@.len() - 1,
                sizes@ == seq![nin] + nouts@,
                base == old(g).nodes@.len(),
                g.wf(),
                g.same_constants(&*old(g)),
                extends(old(g).nodes@, g.nodes@, param_count(nin as int, nouts@.take(i as int))),
                leaves_from(g.nodes@, base),
                layers@.len() == i,
                forall|l: int|
                    0 <= l < i ==> (#[trigger] layers@[l]).shaped(
                        fan_in(nin as int, nouts@, l),
                        nouts@[l] as int,
                        l + 1 < nouts@.len(),
                    ) && layers@[l].fits(g.nodes@.len() as int),
                layers_params(layers@) == index_range(
                    base,
                    param_count(nin as int, nouts@.take(i as int)),
                ),
                g.grads_zero_from(base),
                forall|l: int|
                    0 <= l < i ==> biases_zero(
                        (#[trigger] layers@[l]).neuron_seq(),
                        g.nodes@,
                        g.zero,
                    ),
                forall|l: int|
                    0 <= l < i ==> layer_he_weights(
                        #[trigger] layers@[l],
                        g.nodes@,
                        fan_in(nin as int, nouts@, l) as usize,
                    ),
                forall|l: int|
                    0 <= l < i ==> layer_weights_from::<T, I>(#[trigger] layers@[l], g.nodes@),
            decreases nouts@.len() - i,
        {
            let ghost before = g.nodes@;
            proof {
                lemma_param_count_nonneg(nin as int, nouts@.take(i as int));
            }
            let layer = Layer::new(g, init, sizes[i], sizes[i + 1], i != last);
            proof {
                let pre = nouts@.take(i as int);
                let post = nouts@.take(i + 1);
                assert(post.drop_last() =~= pre);
                assert(fan_in(nin as int, post, i as int) == fan_in(nin as int, nouts@, i as int));
                assert(sizes@[i as int] == fan_in(nin as int, nouts@, i as int));
                assert(param_count(nin as int, post) == param_count(nin as int, pre) + nouts@[i as int]
                    * (sizes@[i as int] + 1));
                assert forall|k: int| 0 <= k < base implies #[trigger] g.nodes@[k] == old(
                    g,
                ).nodes@[k] by {
                    assert(g.nodes@[k] == before[k]);
                }
                assert forall|k: int| base <= k < g.nodes@.len() implies #[trigger] g.nodes@[k].op
                    == Op::<T>::Leaf by {
                    if k < before.len() {
                        assert(g.nodes@[k] == before[k]);
                    }
                }
                assert forall|k: int| base <= k < g.nodes@.len() implies #[trigger] g.nodes@[k].grad
                    == g.zero by {
                    if k < before.len() {
                        assert(g.nodes@[k] == before[k]);
                    }
                }
            }
            let ghost prev = layers@;
            layers.push(layer);
            proof {
                assert(layers@.drop_last() =~= prev);
                assert(layers_params(layers@) =~= index_range(
                    base,
                    param_count(nin as int, nouts@.take(i + 1)),
                ));
                assert forall|l: int| 0 <= l < i + 1 implies (#[trigger] layers@[l]).shaped(
                    fan_in(nin as int, nouts@, l),
                    nouts@[l] as int,
                    l + 1 < nouts@.len(),
                ) && layers@[l].fits(g.nodes@.len() as int) by {
                    if l < i {
                        assert(layers@[l] == prev[l]);
                        let ns = layers@[l].neuron_seq();
                        assert forall|k: int| 0 <= k < ns.len() implies #[trigger] ns[k].fits(
                            g.nodes@.len() as int,
                        ) by {
                            assert(ns[k].fits(before.len() as int));
                        }
                    }
                }
                assert forall|l: int| 0 <= l < i + 1 implies layer_he_weights(
                    #[trigger] layers@[l],
                    g.nodes@,
                    fan_in(nin as int, nouts@, l) as usize,
                ) by {
                    if l < i {
                        assert(layers@[l] == prev[l]);
                        let ns = prev[l].neuron_seq();
                        assert forall|k: int| 0 <= k < ns.len() implies he_weights(
                            #[trigger] ns[k],
                            g.nodes@,
                            fan_in(nin as int, nouts@, l) as usize,
                        ) by {
                            assert(prev[l].fits(before.len() as int));
                            assert(ns[k].fits(before.len() as int));
                            assert(he_weights(ns[k], before, fan_in(nin as int, nouts@, l) as usize));
                            lemma_he_weights_kept(
                                ns[k],
                                before,
                                g.nodes@,
                                fan_in(nin as int, nouts@, l) as usize,
                            );
                        }
                    } else {
                        assert(sizes@[i as int] == fan_in(nin as int, nouts@, i as int));
                    }
                }
                assert forall|l: int| 0 <= l < i + 1 implies layer_weights_from::<T, I>(
                    #[trigger] layers@[l],
                    g.nodes@,
                ) by {
                    if l < i {
                        assert(layers@[l] == prev[l]);
                        let ns = prev[l].neuron_seq();
                        assert forall|k: int| 0 <= k < ns.len() implies weights_from::<T, I>(
                            #[trigger] ns[k],
                            g.nodes@,
                        ) by {
                            assert(prev[l].fits(before.len() as int));
                            assert(ns[k].fits(before.len() as int));
                            assert(weights_from::<T, I>(ns[k], before));
                            lemma_weights_from_kept::<T, I>(ns[k], before, g.nodes@);
                        }
                    }
                }
                assert forall|l: int| 0 <= l < i + 1 implies biases_zero(
                    (#[trigger] layers@[l]).neuron_seq(),
                    g.nodes@,
                    g.zero,
                ) by {
                    if l < i {
                        assert(layers@[l] == prev[l]);
                        let ns = prev[l].neuron_seq();
                        assert(biases_zero(ns, before, g.zero));
                        assert forall|k: int| 0 <= k < ns.len() implies #[trigger] g.nodes@[ns[k].bias() as int].data
                            == g.zero by {
                            assert(prev[l].fits(before.len() as int));
                            assert(ns[k].fits(before.len() as int));
                            assert(ns[k].params()[ns[k].weights().len() as int] == ns[k].bias());
                            assert(g.nodes@[ns[k].bias() as int] == before[ns[k].bias() as int]);
                        }
                    }
                }
            }
            i = i + 1;
        }
        assert(nouts@.take(i as int) =~= nouts@);
        MLP { layers }
    }

    /// Threads `x` through every layer; returns the last layer's outputs.
    pub fn forward<T: Scalar>(&self, g: &mut Graph<T>, x: &[usize]) -> (out: Vec<usize>)
        requires
            old(g).wf(),
            self.fits(old(g).nodes@.len() as int),
            all_below(x@, old(g).nodes@.len() as int),
        ensures
            final(g).wf(),
            final(g).same_constants(&*old(g)),
            grows(old(g).nodes@, final(g).nodes@),
            extends(
                old(g).nodes@,
                final(g).nodes@,
                network_growth(self.layer_seq(), x@.len() as int),
            ),
            out@ == network_outputs(self.layer_seq(), x@, old(g).nodes@.len() as int),
            out@.len() == self.output_width(x@.len() as int),
            all_below(out@, final(g).nodes@.len() as int),
            network_appended(self.layer_seq(), final(g).nodes@, x@, old(g).nodes@.len() as int),
            computed_between(
                final(g).nodes@,
                old(g).nodes@.len() as int,
                final(g).nodes@.len() as int,
            ),
            final(g).grads_zero_from(old(g).nodes@.len() as int),
    {
        let ghost ls = self.layer_seq();
        let ghost base = old(g).nodes@.len() as int;
        let mut h = vstd::slice::slice_to_vec(x);
        let mut l: usize = 0;
        while l < self.layers.len()
            invariant
                l <= ls.len(),
                ls == self.layer_seq(),
                base == old(g).nodes@.len(),
                g.wf(),
                g.same_constants(&*old(g)),
                extends(old(g).nodes@, g.nodes@, network_growth(ls.take(l as int), x@.len() as int)),
                self.fits(old(g).nodes@.len() as int),
                h@ == network_outputs(ls.take(l as int), x@, base),
                all_below(h@, g.nodes@.len() as int),
                network_appended(ls.take(l as int), g.nodes@, x@, base),
                computed_between(g.nodes@, base, g.nodes@.len() as int),
                g.grads_zero_from(base),
            decreases ls.len() - l,
        {
            let ghost before = g.nodes@;
            let layer = &self.layers[l];
            proof {
                lemma_network_growth_nonneg(ls.take(l as int), x@.len() as int);
                lemma_network_outputs_len(ls.take(l as int), x@, base);
                let ns = ls[l as int].neuron_seq();
                assert(ls[l as int].fits(old(g).nodes@.len() as int));
                assert forall|k: int| 0 <= k < ns.len() implies #[trigger] ns[k].fits(
                    g.nodes@.len() as int,
                ) by {
                    assert(ns[k].fits(old(g).nodes@.len() as int));
                }
            }
            h = layer.forward(g, h.as_slice());
            proof {
                let pre = ls.take(l as int);
                let post = ls.take(l + 1);
                assert(post.drop_last() =~= pre);
                assert(post.last() == ls[l as int]);
                lemma_computed_append(before, g.nodes@, base);
                lemma_grads_zero_append(before, g.nodes@, base, g.zero);
                lemma_network_appended_kept(pre, before, g.nodes@, x@, base);
                assert forall|i: int| 0 <= i < old(g).nodes@.len() implies #[trigger] g.nodes@[i]
                    == old(g).nodes@[i] by {
                    assert(g.nodes@[i] == before[i]);
                }
            }
            l = l + 1;
        }
        proof {
            assert(ls.take(l as int) =~= ls);
            lemma_network_growth_nonneg(ls, x@.len() as int);
            lemma_network_outputs_len(ls, x@, base);
        }
        h
    }

    /// Like [`forward`](MLP::forward), but returns every layer's outputs:
    /// `acts[l][k]` is the output index of neuron `k` of layer `l`.
    pub fn forward_verbose<T: Scalar>(&self, g: &mut Graph<T>, x: &[usize]) -> (acts: Vec<
        Vec<usize>,
    >)
        requires
            old(g).wf(),
            self.fits(old(g).nodes@.len() as int),
            all_below(x@, old(g).nodes@.len() as int),
        ensures
            final(g).wf(),
            final(g).same_constants(&*old(g)),
            grows(old(g).nodes@, final(g).nodes@),
            extends(
                old(g).nodes@,
                final(g).nodes@,
                network_growth(self.layer_seq(), x@.len() as int),
            ),
            acts@.len() == self.layer_seq().len(),
            forall|l: int|
                0 <= l < acts@.len() ==> (#[trigger] acts@[l])@ == network_outputs(
                    self.layer_seq().take(l + 1),
                    x@,
                    old(g).nodes@.len() as int,
                ),
            forall|l: int|
                0 <= l < acts@.len() ==> (#[trigger] acts@[l])@.len()
                    == self.layer_seq()[l].neuron_seq().len() && all_below(
                    acts@[l]@,
                    final(g).nodes@.len() as int,
                ),
            network_appended(self.layer_seq(), final(g).nodes@, x@, old(g).nodes@.len() as int),
            computed_between(
                final(g).nodes@,
                old(g).nodes@.len() as int,
                final(g).nodes@.len() as int,
            ),
            final(g).grads_zero_from(old(g).nodes@.len() as int),
    {
        let ghost ls = self.layer_seq();
        let ghost base = old(g).nodes@.len() as int;
        let mut acts: Vec<Vec<usize>> = Vec::new();
        let mut h = vstd::slice::slice_to_vec(x);
        let mut l: usize = 0;
        while l < self.layers.len()
            invariant
                l <= ls.len(),
                ls == self.layer_seq(),
                base == old(g).nodes@.len(),
                g.wf(),
                g.same_constants(&*old(g)),
                extends(old(g).nodes@, g.nodes@, network_growth(ls.take(l as int), x@.len() as int)),
                self.fits(old(g).nodes@.len() as int),
                h@ == network_outputs(ls.take(l as int), x@, base),
                all_below(h@, g.nodes@.len() as int),
                network_appended(ls.take(l as int), g.nodes@, x@, base),
                computed_between(g.nodes@, base, g.nodes@.len() as int),
                g.grads_zero_from(base),
                acts@.len() == l,
                forall|j: int|
                    0 <= j < l ==> (#[trigger] acts@[j])@ == network_outputs(
                        ls.take(j + 1),
                        x@,
                        base,
                    ),
                forall|j: int|
                    0 <= j < l ==> (#[trigger] acts@[j])@.len() == ls[j].neuron_seq().len()
                        && all_below(acts@[j]@, g.nodes@.len() as int),
            decreases ls.len() - l,
        {
            let ghost before = g.nodes@;
            let layer = &self.layers[l];
            proof {
                lemma_network_growth_nonneg(ls.take(l as int), x@.len() as int);
                lemma_network_outputs_len(ls.take(l as int), x@, base);
                let ns = ls[l as int].neuron_seq();
                assert(ls[l as int].fits(old(g).nodes@.len() as int));
                assert forall|k: int| 0 <= k < ns.len() implies #[trigger] ns[k].fits(
                    g.nodes@.len() as int,
                ) by {
                    assert(ns[k].fits(old(g).nodes@.len() as int));
                }
            }
            h = layer.forward(g, h.as_slice());
            proof {
                let pre = ls.take(l as int);
                let post = ls.take(l + 1);
                assert(post.drop_last() =~= pre);
                assert(post.last() == ls[l as int]);
                lemma_computed_append(before, g.nodes@, base);
                lemma_grads_zero_append(before, g.nodes@, base, g.zero);
                lemma_network_appended_kept(pre, before, g.nodes@, x@, base);
                assert forall|i: int| 0 <= i < old(g).nodes@.len() implies #[trigger] g.nodes@[i]
                    == old(g).nodes@[i] by {
                    assert(g.nodes@[i] == before[i]);
                }
            }
            let ghost prev = acts@;
            acts.push(h.clone());
            proof {
                assert(acts@[l as int]@ =~= h@);
                assert forall|j: int| 0 <= j < l + 1 implies (#[trigger] acts@[j])@
                    == network_outputs(ls.take(j + 1), x@, base) by {
                    if j < l {
                        assert(acts@[j] == prev[j]);
                    }
                }
                assert forall|j: int| 0 <= j < l + 1 implies (#[trigger] acts@[j])@.len()
                    == ls[j].neuron_seq().len() && all_below(acts@[j]@, g.nodes@.len() as int) by {
                    if j < l {
                        assert(acts@[j] == prev[j]);
                    }
                }
            }
            l = l + 1;
        }
        proof {
            assert(ls.take(l as int) =~= ls);
            lemma_network_growth_nonneg(ls, x@.len() as int);
        }
        acts
    }

    /// The whole network's parameters, layer after layer.
    pub fn parameters(&self) -> (p: Vec<usize>)
        ensures
            p@ == self.params(),
    {
        let mut p: Vec<usize> = Vec::new();
        let mut l: usize = 0;
        while l < self.layers.len()
            invariant
                l <= self.layer_seq().len(),
                p@ == layers_params(self.layer_seq().take(l as int)),
            decreases self.layer_seq().len() - l,
        {
            let mut q = self.layers[l].parameters();
            p.append(&mut q);
            assert(self.layer_seq().take(l + 1).drop_last() =~= self.layer_seq().take(l as int));
            l = l + 1;
        }
        assert(self.layer_seq().take(l as int) =~= self.layer_seq());
        p
    }

    /// The network's layers, for per-layer and per-neuron introspection.
    pub fn layers(&self) -> (ls: &[Layer])
        ensures
            ls@ == self.layer_seq(),
    {
        self.layers.as_slice()
    }
}

} // verus!
