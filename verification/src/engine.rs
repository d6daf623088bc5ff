//! The autograd engine: an arena of nodes, each with a value, a gradient and
//! the operation that produced it. A node refers to its inputs by their index
//! in the arena, and an input always lies below the node that reads it.

use vstd::prelude::*;

verus! {

/// The arithmetic that the engine performs on node values and gradients.
///
/// The engine never inspects a value itself: it only combines values through
/// these operations, so every structural property proved here holds whatever
/// the implementation computes.
pub trait Scalar: Copy + Sized {
    /// The number `num / den`.
    fn from_ratio(num: i64, den: u64) -> Self
        requires
            den > 0,
    ;

    /// The number `n`.
    fn from_count(n: usize) -> Self;

    /// `self + rhs`.
    fn add(self, rhs: Self) -> Self;

    /// `self - rhs`.
    fn sub(self, rhs: Self) -> Self;

    /// `self * rhs`.
    fn mul(self, rhs: Self) -> Self;

    /// `self / rhs`.
    fn div(self, rhs: Self) -> Self;

    /// `self` raised to the power `exponent`.
    fn powf(self, exponent: Self) -> Self;

    /// `max(self, 0)`.
    fn relu(self) -> Self;

    /// The square root of `self`.
    fn sqrt(self) -> Self;

    /// `self > 0`.
    fn is_positive(self) -> bool;
}

/// The operation that produced a node; inputs are arena indices.
#[derive(Clone, Copy)]
pub enum Op<T> {
    Leaf,
    Add(usize, usize),
    Mul(usize, usize),
    /// Base index and exponent.
    Pow(usize, T),
    Relu(usize),
}

/// One arena entry.
pub struct Node<T> {
    pub data: T,
    pub grad: T,
    pub op: Op<T>,
}

/// The arena. A node is referred to by its index in `nodes`.
pub struct Graph<T> {
    pub nodes: Vec<Node<T>>,
    /// The value a new node's gradient starts at, and that `backward` resets
    /// every gradient to: `0`, as the scalar makes it.
    pub zero: T,
    /// The value `backward` seeds the root's gradient with: `1`, as the
    /// scalar makes it.
    pub one: T,
}

/// How a node's gradient contributes to the gradient of one of its inputs:
/// the local derivative of the node with respect to that input.
#[derive(Clone, Copy)]
pub enum Rule<T> {
    /// Derivative 1 (an input of a sum).
    Pass,
    /// Derivative equal to the data of the given node (the other factor of a product).
    ScaledBy(usize),
    /// Derivative `e * base^(e - 1)` for the given exponent `e`.
    Power(T),
    /// Derivative 1 where the node's own data is positive, 0 elsewhere (ReLU).
    Gate,
}

/// One accumulation of the backward pass:
/// `grad[target] += local derivative * grad[source]`.
pub struct Step<T> {
    pub target: usize,
    pub source: usize,
    pub rule: Rule<T>,
}

/// Every input of `op`, the operation of node `i`, lies below `i`.
pub open spec fn inputs_below<T>(op: Op<T>, i: int) -> bool {
    match op {
        Op::Leaf => true,
        Op::Add(a, b) => a < i && b < i,
        Op::Mul(a, b) => a < i && b < i,
        Op::Pow(a, _) => a < i,
        Op::Relu(a) => a < i,
    }
}

/// The arena is in topological order: each node reads only nodes below it.
pub open spec fn topo_ordered<T>(nodes: Seq<Node<T>>) -> bool {
    forall|i: int| 0 <= i < nodes.len() ==> #[trigger] inputs_below(nodes[i].op, i)
}

/// `after` is `before` with `k` more nodes on top.
pub open spec fn extends<T>(before: Seq<Node<T>>, after: Seq<Node<T>>, k: int) -> bool {
    &&& after.len() == before.len() + k
    &&& forall|i: int| 0 <= i < before.len() ==> #[trigger] after[i] == before[i]
}

/// Node data and operations are the same in both arenas; gradients may differ.
pub open spec fn same_values<T>(before: Seq<Node<T>>, after: Seq<Node<T>>) -> bool {
    &&& after.len() == before.len()
    &&& forall|i: int|
        0 <= i < before.len() ==> #[trigger] after[i].data == before[i].data && after[i].op
            == before[i].op
}

/// The accumulations that node `i`, computed by `op`, makes into its inputs,
/// in the order the backward pass makes them.
pub open spec fn local_steps<T>(i: usize, op: Op<T>) -> Seq<Step<T>> {
    match op {
        Op::Leaf => Seq::empty(),
        Op::Add(a, b) => seq![
            Step { target: a, source: i, rule: Rule::Pass },
            Step { target: b, source: i, rule: Rule::Pass },
        ],
        Op::Mul(a, b) => seq![
            Step { target: a, source: i, rule: Rule::ScaledBy(b) },
            Step { target: b, source: i, rule: Rule::ScaledBy(a) },
        ],
        Op::Pow(a, e) => seq![Step { target: a, source: i, rule: Rule::Power(e) }],
        Op::Relu(a) => seq![Step { target: a, source: i, rule: Rule::Gate }],
    }
}

/// The accumulations of nodes `hi - 1` down to `lo`, highest node first.
pub open spec fn steps_between<T>(nodes: Seq<Node<T>>, lo: int, hi: int) -> Seq<Step<T>>
    decreases hi - lo,
{
    if lo >= hi {
        Seq::empty()
    } else {
        steps_between(nodes, lo + 1, hi) + local_steps(lo as usize, nodes[lo].op)
    }
}

/// The whole backward pass: every node, from the top of the arena down.
pub open spec fn backward_schedule<T>(nodes: Seq<Node<T>>) -> Seq<Step<T>> {
    steps_between(nodes, 0, nodes.len() as int)
}

/// A step reads and writes nodes of an arena of `len` nodes, and writes below
/// the node it reads the gradient of.
pub open spec fn step_fits<T>(s: Step<T>, len: int) -> bool {
    &&& s.target < s.source < len
    &&& s.rule matches Rule::ScaledBy(o) ==> o < len
}

proof fn lemma_steps_between<T>(nodes: Seq<Node<T>>, lo: int, hi: int)
    requires
        topo_ordered(nodes),
        0 <= lo,
        hi <= nodes.len() <= usize::MAX,
    ensures
        forall|p: int|
            0 <= p < steps_between(nodes, lo, hi).len() ==> {
                let s = #[trigger] steps_between(nodes, lo, hi)[p];
                &&& step_fits(s, nodes.len() as int)
                &&& lo <= s.source < hi
                &&& local_steps(s.source, nodes[s.source as int].op).contains(s)
            },
        forall|i: int, k: int|
            lo <= i < hi && 0 <= k < local_steps(i as usize, nodes[i].op).len()
                ==> steps_between(nodes, lo, hi).contains(
                #[trigger] local_steps(i as usize, nodes[i].op)[k],
            ),
        forall|p: int, q: int|
            0 <= p <= q < steps_between(nodes, lo, hi).len() ==> #[trigger] steps_between(
                nodes,
                lo,
                hi,
            )[q].source <= #[trigger] steps_between(nodes, lo, hi)[p].source,
    decreases hi - lo,
{
    if lo < hi {
        lemma_steps_between(nodes, lo + 1, hi);
        assert(inputs_below(nodes[lo].op, lo));
        let rest = steps_between(nodes, lo + 1, hi);
        let local = local_steps(lo as usize, nodes[lo].op);
        assert(steps_between(nodes, lo, hi) == rest + local);
        assert forall|p: int| 0 <= p < local.len() implies {
            &&& step_fits(#[trigger] local[p], nodes.len() as int)
            &&& local[p].source == lo
        } by {
            match nodes[lo].op {
                Op::Leaf => {},
                Op::Add(a, b) => {},
                Op::Mul(a, b) => {},
                Op::Pow(a, e) => {},
                Op::Relu(a) => {},
            }
        }
        let all = rest + local;
        assert forall|p: int| 0 <= p < all.len() implies local_steps(
            (#[trigger] all[p]).source,
            nodes[all[p].source as int].op,
        ).contains(all[p]) by {
            if p >= rest.len() {
                assert(local[p - rest.len()] == all[p]);
            } else {
                assert(rest[p] == all[p]);
            }
        }
        assert forall|i: int, k: int|
            lo <= i < hi && 0 <= k < local_steps(i as usize, nodes[i].op).len() implies all.contains(
            #[trigger] local_steps(i as usize, nodes[i].op)[k],
        ) by {
            if i == lo {
                assert(all[rest.len() + k] == local[k]);
            } else {
                let w = choose|j: int|
                    0 <= j < rest.len() && rest[j] == local_steps(i as usize, nodes[i].op)[k];
                assert(all[w] == rest[w]);
            }
        }
    }
}

/// The backward pass is sound on a topologically ordered arena: every step
/// stays inside the arena and writes below the node whose gradient it reads;
/// every step is a local derivative of its node's operation, and every use
/// of a node as an input gets its step (so a node used twice accumulates
/// both); nodes are visited from the top down, and once a node's gradient has
/// been read (to pass it on to its inputs) no later step writes to it, so the
/// gradient it passes on is final.
pub proof fn lemma_backward_schedule<T>(nodes: Seq<Node<T>>)
    requires
        topo_ordered(nodes),
        nodes.len() <= usize::MAX,
    ensures
        forall|p: int|
            0 <= p < backward_schedule(nodes).len() ==> step_fits(
                #[trigger] backward_schedule(nodes)[p],
                nodes.len() as int,
            ),
        forall|p: int|
            0 <= p < backward_schedule(nodes).len() ==> local_steps(
                (#[trigger] backward_schedule(nodes)[p]).source,
                nodes[backward_schedule(nodes)[p].source as int].op,
            ).contains(backward_schedule(nodes)[p]),
        forall|i: int, k: int|
            0 <= i < nodes.len() && 0 <= k < local_steps(i as usize, nodes[i].op).len()
                ==> backward_schedule(nodes).contains(
                #[trigger] local_steps(i as usize, nodes[i].op)[k],
            ),
        forall|p: int, q: int|
            0 <= p <= q < backward_schedule(nodes).len() ==> #[trigger] backward_schedule(
                nodes,
            )[q].source <= #[trigger] backward_schedule(nodes)[p].source,
        forall|p: int, q: int|
            0 <= p <= q < backward_schedule(nodes).len() ==> #[trigger] backward_schedule(
                nodes,
            )[q].target != #[trigger] backward_schedule(nodes)[p].source,
{
    lemma_steps_between(nodes, 0, nodes.len() as int);
    let s = backward_schedule(nodes);
    assert forall|p: int, q: int| 0 <= p <= q < s.len() implies #[trigger] s[q].target
        != #[trigger] s[p].source by {
        assert(step_fits(s[q], nodes.len() as int));
        assert(s[q].source <= s[p].source);
    }
}

/// How many times node `j` is an input of `op` (twice for `x + x`).
pub open spec fn input_count<T>(op: Op<T>, j: int) -> int {
    match op {
        Op::Leaf => 0,
        Op::Add(a, b) => (if a == j {
            1int
        } else {
            0int
        }) + (if b == j {
            1int
        } else {
            0int
        }),
        Op::Mul(a, b) => (if a == j {
            1int
        } else {
            0int
        }) + (if b == j {
            1int
        } else {
            0int
        }),
        Op::Pow(a, _) => if a == j {
            1int
        } else {
            0int
        },
        Op::Relu(a) => if a == j {
            1int
        } else {
            0int
        },
    }
}

/// How many steps of `steps` read the gradient of node `i` and write into
/// node `j`.
pub open spec fn step_count<T>(steps: Seq<Step<T>>, i: int, j: int) -> int
    decreases steps.len(),
{
    if steps.len() == 0 {
        0
    } else {
        step_count(steps.drop_last(), i, j) + if steps.last().source == i && steps.last().target
            == j {
            1int
        } else {
            0int
        }
    }
}

proof fn lemma_step_count_concat<T>(a: Seq<Step<T>>, b: Seq<Step<T>>, i: int, j: int)
    ensures
        step_count(a + b, i, j) == step_count(a, i, j) + step_count(b, i, j),
    decreases b.len(),
{
    if b.len() == 0 {
        assert(a + b =~= a);
    } else {
        lemma_step_count_concat(a, b.drop_last(), i, j);
        assert((a + b).drop_last() =~= a + b.drop_last());
        assert((a + b).last() == b.last());
    }
}

proof fn lemma_local_step_count<T>(k: usize, op: Op<T>, i: int, j: int)
    ensures
        step_count(local_steps(k, op), i, j) == if i == k {
            input_count(op, j)
        } else {
            0
        },
{
    reveal_with_fuel(step_count, 3);
    let s = local_steps(k, op);
    match op {
        Op::Leaf => {},
        Op::Add(a, b) => {
            assert(s.drop_last().drop_last() =~= Seq::<Step<T>>::empty());
        },
        Op::Mul(a, b) => {
            assert(s.drop_last().drop_last() =~= Seq::<Step<T>>::empty());
        },
        Op::Pow(a, e) => {
            assert(s.drop_last() =~= Seq::<Step<T>>::empty());
        },
        Op::Relu(a) => {
            assert(s.drop_last() =~= Seq::<Step<T>>::empty());
        },
    }
}

proof fn lemma_steps_between_count<T>(nodes: Seq<Node<T>>, lo: int, hi: int, i: int, j: int)
    requires
        0 <= lo,
        hi <= nodes.len() <= usize::MAX,
    ensures
        step_count(steps_between(nodes, lo, hi), i, j) == if lo <= i < hi {
            input_count(nodes[i].op, j)
        } else {
            0
        },
    decreases hi - lo,
{
    if lo < hi {
        lemma_steps_between_count(nodes, lo + 1, hi, i, j);
        lemma_step_count_concat(
            steps_between(nodes, lo + 1, hi),
            local_steps(lo as usize, nodes[lo].op),
            i,
            j,
        );
        lemma_local_step_count(lo as usize, nodes[lo].op, i, j);
    }
}

/// The backward pass passes every use of a node on exactly once: for each
/// node `i` and each node `j`, the schedule has exactly as many steps from
/// `i` into `j` as `j` occurs among the inputs of `i`'s operation. So `x`
/// gets the gradient of `x + x` twice, and a node that `i` does not read
/// gets nothing from `i`.
pub proof fn lemma_backward_schedule_counts<T>(nodes: Seq<Node<T>>, i: int, j: int)
    requires
        0 <= i < nodes.len() <= usize::MAX,
    ensures
        step_count(backward_schedule(nodes), i, j) == input_count(nodes[i].op, j),
{
    lemma_steps_between_count(nodes, 0, nodes.len() as int, i, j);
}

/// `after` is `before` with zero or more nodes on top.
pub open spec fn grows<T>(before: Seq<Node<T>>, after: Seq<Node<T>>) -> bool {
    &&& before.len() <= after.len()
    &&& forall|i: int| 0 <= i < before.len() ==> #[trigger] after[i] == before[i]
}

/// Growth is undone by truncating back to the old length: whatever a forward
/// pass or a loss appends above the parameters, dropping it restores the
/// arena exactly.
pub proof fn lemma_truncate_undoes_growth<T>(before: Seq<Node<T>>, after: Seq<Node<T>>)
    requires
        grows(before, after),
    ensures
        after.take(before.len() as int) == before,
{
    assert(after.take(before.len() as int) =~= before);
}

/// Some step of `steps` writes to node `i`.
pub open spec fn targeted<T>(steps: Seq<Step<T>>, i: int) -> bool {
    exists|p: int| 0 <= p < steps.len() && #[trigger] steps[p].target == i
}

// What the scalar's own operations can return. The engine stores exactly the
// values these operations gave it, whatever arithmetic the scalar implements.

/// `r` is a result of `a.add(b)`.
pub open spec fn added<T: Scalar>(a: T, b: T, r: T) -> bool {
    call_ensures(T::add, (a, b), r)
}

/// `r` is a result of `a.sub(b)`.
pub open spec fn subtracted<T: Scalar>(a: T, b: T, r: T) -> bool {
    call_ensures(T::sub, (a, b), r)
}

/// `r` is a result of `a.mul(b)`.
pub open spec fn multiplied<T: Scalar>(a: T, b: T, r: T) -> bool {
    call_ensures(T::mul, (a, b), r)
}

/// `r` is a result of `a.powf(e)`.
pub open spec fn powered<T: Scalar>(a: T, e: T, r: T) -> bool {
    call_ensures(T::powf, (a, e), r)
}

/// `r` is a result of `a.div(b)`.
pub open spec fn divided<T: Scalar>(a: T, b: T, r: T) -> bool {
    call_ensures(T::div, (a, b), r)
}

/// `r` is a result of `a.relu()`.
pub open spec fn relued<T: Scalar>(a: T, r: T) -> bool {
    call_ensures(T::relu, (a,), r)
}

/// `r` is a result of `a.sqrt()`.
pub open spec fn sqrted<T: Scalar>(a: T, r: T) -> bool {
    call_ensures(T::sqrt, (a,), r)
}

/// `r` is a result of `T::from_ratio(num, den)`.
pub open spec fn ratio<T: Scalar>(num: i64, den: u64, r: T) -> bool {
    call_ensures(T::from_ratio, (num, den), r)
}

/// `r` is a result of `T::from_count(n)`.
pub open spec fn counted<T: Scalar>(n: usize, r: T) -> bool {
    call_ensures(T::from_count, (n,), r)
}

/// The data of node `i` is a result of its operation on its inputs' data
/// (any data for a leaf).
pub open spec fn node_computed<T: Scalar>(nodes: Seq<Node<T>>, i: int) -> bool {
    let d = nodes[i].data;
    match nodes[i].op {
        Op::Leaf => true,
        Op::Add(a, b) => added(nodes[a as int].data, nodes[b as int].data, d),
        Op::Mul(a, b) => multiplied(nodes[a as int].data, nodes[b as int].data, d),
        Op::Pow(a, e) => powered(nodes[a as int].data, e, d),
        Op::Relu(a) => relued(nodes[a as int].data, d),
    }
}

/// Every node from `lo` up to (not including) `hi` holds the result of its
/// operation on its inputs' data.
pub open spec fn computed_between<T: Scalar>(nodes: Seq<Node<T>>, lo: int, hi: int) -> bool {
    forall|i: int| lo <= i < hi ==> #[trigger] node_computed(nodes, i)
}

/// Appending nodes keeps what the nodes below held.
pub proof fn lemma_computed_kept<T: Scalar>(
    before: Seq<Node<T>>,
    after: Seq<Node<T>>,
    lo: int,
    hi: int,
)
    requires
        topo_ordered(before),
        grows(before, after),
        computed_between(before, lo, hi),
        0 <= lo,
        hi <= before.len(),
    ensures
        computed_between(after, lo, hi),
{
    assert forall|i: int| lo <= i < hi implies #[trigger] node_computed(after, i) by {
        assert(node_computed(before, i));
        assert(inputs_below(before[i].op, i));
        assert(after[i] == before[i]);
        match before[i].op {
            Op::Leaf => {},
            Op::Add(a, b) => {
                assert(after[a as int] == before[a as int]);
                assert(after[b as int] == before[b as int]);
            },
            Op::Mul(a, b) => {
                assert(after[a as int] == before[a as int]);
                assert(after[b as int] == before[b as int]);
            },
            Op::Pow(a, e) => {
                assert(after[a as int] == before[a as int]);
            },
            Op::Relu(a) => {
                assert(after[a as int] == before[a as int]);
            },
        }
    }
}

/// What held below `before.len()` still holds once nodes are appended, so
/// holding on the appended nodes too, it holds from `lo` all the way up.
pub proof fn lemma_computed_append<T: Scalar>(before: Seq<Node<T>>, after: Seq<Node<T>>, lo: int)
    requires
        topo_ordered(before),
        grows(before, after),
        computed_between(before, lo, before.len() as int),
        computed_between(after, before.len() as int, after.len() as int),
        0 <= lo <= before.len(),
    ensures
        computed_between(after, lo, after.len() as int),
{
    lemma_computed_kept(before, after, lo, before.len() as int);
    assert forall|i: int| lo <= i < after.len() implies #[trigger] node_computed(after, i) by {
        if i < before.len() {
            assert(computed_between(after, lo, before.len() as int));
        }
    }
}

/// Zero gradients from `lo` up stay zero when nodes with zero gradients are
/// appended.
pub proof fn lemma_grads_zero_append<T>(before: Seq<Node<T>>, after: Seq<Node<T>>, lo: int, zero: T)
    requires
        0 <= lo,
        grows(before, after),
        forall|i: int| lo <= i < before.len() ==> #[trigger] before[i].grad == zero,
        forall|i: int| before.len() <= i < after.len() ==> #[trigger] after[i].grad == zero,
    ensures
        forall|i: int| lo <= i < after.len() ==> #[trigger] after[i].grad == zero,
{
    assert forall|i: int| lo <= i < after.len() implies #[trigger] after[i].grad == zero by {
        if i < before.len() {
            assert(after[i] == before[i]);
        }
    }
}

/// Changing gradients only keeps what every node held.
pub proof fn lemma_computed_same_values<T: Scalar>(
    before: Seq<Node<T>>,
    after: Seq<Node<T>>,
    lo: int,
    hi: int,
)
    requires
        topo_ordered(before),
        same_values(before, after),
        computed_between(before, lo, hi),
        0 <= lo,
        hi <= before.len(),
    ensures
        computed_between(after, lo, hi),
{
    assert forall|i: int| lo <= i < hi implies #[trigger] node_computed(after, i) by {
        assert(node_computed(before, i));
        assert(inputs_below(before[i].op, i));
        assert(0 <= i < before.len());
        assert(after[i].data == before[i].data);
        assert(after[i].op == before[i].op);
        match before[i].op {
            Op::Leaf => {},
            Op::Add(a, b) => {
                assert(after[a as int].data == before[a as int].data);
                assert(after[b as int].data == before[b as int].data);
            },
            Op::Mul(a, b) => {
                assert(after[a as int].data == before[a as int].data);
                assert(after[b as int].data == before[b as int].data);
            },
            Op::Pow(a, e) => {
                assert(after[a as int].data == before[a as int].data);
            },
            Op::Relu(a) => {
                assert(after[a as int].data == before[a as int].data);
            },
        }
    }
}

/// `b` is a result of `a.is_positive()`.
pub open spec fn positive<T: Scalar>(a: T, b: bool) -> bool {
    call_ensures(T::is_positive, (a,), b)
}

/// `delta` is what `step` adds to the gradient of its target in `nodes`: the
/// local derivative of its rule times the gradient of its source.
pub open spec fn contribution<T: Scalar>(
    nodes: Seq<Node<T>>,
    one: T,
    zero: T,
    step: Step<T>,
    delta: T,
) -> bool {
    let g = nodes[step.source as int].grad;
    match step.rule {
        Rule::Pass => delta == g,
        Rule::ScaledBy(o) => multiplied(nodes[o as int].data, g, delta),
        Rule::Power(e) => exists|e1: T, p: T, d: T|
            #![trigger subtracted(e, one, e1), powered(nodes[step.target as int].data, e1, p), multiplied(e, p, d)]
            subtracted(e, one, e1) && powered(nodes[step.target as int].data, e1, p) && multiplied(
                e,
                p,
                d,
            ) && multiplied(d, g, delta),
        Rule::Gate => exists|b: bool|
            #[trigger] positive(nodes[step.source as int].data, b) && delta == if b {
                g
            } else {
                zero
            },
    }
}

/// `after` is `before` once `step` has been made: the target's gradient has
/// grown by the step's contribution, and nothing else has changed.
pub open spec fn accumulated<T: Scalar>(
    before: Seq<Node<T>>,
    after: Seq<Node<T>>,
    step: Step<T>,
    one: T,
    zero: T,
) -> bool {
    &&& step.target < before.len()
    &&& after.len() == before.len()
    &&& forall|k: int| 0 <= k < before.len() && k != step.target ==> #[trigger] after[k] == before[k]
    &&& after[step.target as int].data == before[step.target as int].data
    &&& after[step.target as int].op == before[step.target as int].op
    &&& exists|delta: T|
        #[trigger] contribution(before, one, zero, step, delta) && added(
            before[step.target as int].grad,
            delta,
            after[step.target as int].grad,
        )
}

/// `after` is `before` once the steps of `steps` have been made, in order.
pub open spec fn replayed<T: Scalar>(
    before: Seq<Node<T>>,
    after: Seq<Node<T>>,
    steps: Seq<Step<T>>,
    one: T,
    zero: T,
) -> bool
    decreases steps.len(),
{
    if steps.len() == 0 {
        after == before
    } else {
        exists|mid: Seq<Node<T>>|
            replayed(before, mid, steps.drop_last(), one, zero) && #[trigger] accumulated(
                mid,
                after,
                steps.last(),
                one,
                zero,
            )
    }
}

/// The arena that the backward pass from `root` starts from: the same data
/// and operations, every gradient `zero` but the root's, which is `one`.
pub open spec fn reset<T>(nodes: Seq<Node<T>>, root: int, zero: T, one: T) -> Seq<Node<T>> {
    Seq::new(
        nodes.len(),
        |i: int|
            Node {
                data: nodes[i].data,
                grad: if i == root {
                    one
                } else {
                    zero
                },
                op: nodes[i].op,
            },
    )
}

/// The backward pass forgets the gradients it finds: two arenas with the
/// same data and operations start it from the same arena, so whatever an
/// earlier pass left in the gradients has no effect on the next.
pub proof fn lemma_reset_ignores_grads<T>(
    a: Seq<Node<T>>,
    b: Seq<Node<T>>,
    root: int,
    zero: T,
    one: T,
)
    requires
        same_values(a, b),
    ensures
        reset(a, root, zero, one) == reset(b, root, zero, one),
{
    assert(reset(a, root, zero, one) =~= reset(b, root, zero, one));
}

proof fn lemma_replayed_push<T: Scalar>(
    before: Seq<Node<T>>,
    mid: Seq<Node<T>>,
    after: Seq<Node<T>>,
    steps: Seq<Step<T>>,
    step: Step<T>,
    one: T,
    zero: T,
)
    requires
        replayed(before, mid, steps, one, zero),
        accumulated(mid, after, step, one, zero),
    ensures
        replayed(before, after, steps.push(step), one, zero),
{
    assert(steps.push(step).drop_last() =~= steps);
    assert(steps.push(step).last() == step);
}

/// The scalar's operations are functions: the same arguments always give
/// the same result. (The trait does not promise this; the laws below hold
/// for every scalar that keeps it, such as IEEE-754 arithmetic.)
pub open spec fn functional<T: Scalar>() -> bool {
    &&& forall|a: T, b: T, r: T, q: T|
        #![trigger added(a, b, r), added(a, b, q)]
        added(a, b, r) && added(a, b, q) ==> r == q
    &&& forall|a: T, b: T, r: T, q: T|
        #![trigger subtracted(a, b, r), subtracted(a, b, q)]
        subtracted(a, b, r) && subtracted(a, b, q) ==> r == q
    &&& forall|a: T, b: T, r: T, q: T|
        #![trigger multiplied(a, b, r), multiplied(a, b, q)]
        multiplied(a, b, r) && multiplied(a, b, q) ==> r == q
    &&& forall|a: T, b: T, r: T, q: T|
        #![trigger powered(a, b, r), powered(a, b, q)]
        powered(a, b, r) && powered(a, b, q) ==> r == q
    &&& forall|a: T, r: T, q: T|
        #![trigger relued(a, r), relued(a, q)]
        relued(a, r) && relued(a, q) ==> r == q
    &&& forall|a: T, r: bool, q: bool|
        #![trigger positive(a, r), positive(a, q)]
        positive(a, r) && positive(a, q) ==> r == q
}

proof fn lemma_contribution_functional<T: Scalar>(
    nodes: Seq<Node<T>>,
    one: T,
    zero: T,
    step: Step<T>,
    d1: T,
    d2: T,
)
    requires
        functional::<T>(),
        contribution(nodes, one, zero, step, d1),
        contribution(nodes, one, zero, step, d2),
    ensures
        d1 == d2,
{
    let g = nodes[step.source as int].grad;
    match step.rule {
        Rule::Pass => {},
        Rule::ScaledBy(o) => {},
        Rule::Power(e) => {
            let t = nodes[step.target as int].data;
            let (e1, p, d) = choose|e1: T, p: T, d: T|
                subtracted(e, one, e1) && powered(t, e1, p) && multiplied(e, p, d) && multiplied(
                    d,
                    g,
                    d1,
                );
            let (f1, q, c) = choose|e1: T, p: T, d: T|
                subtracted(e, one, e1) && powered(t, e1, p) && multiplied(e, p, d) && multiplied(
                    d,
                    g,
                    d2,
                );
            assert(e1 == f1);
            assert(p == q);
            assert(d == c);
        },
        Rule::Gate => {
            let a = nodes[step.source as int].data;
            let b1 = choose|b: bool| positive(a, b) && d1 == if b {
                g
            } else {
                zero
            };
            let b2 = choose|b: bool| positive(a, b) && d2 == if b {
                g
            } else {
                zero
            };
            assert(b1 == b2);
        },
    }
}

/// With a functional scalar, replaying the same steps from the same arena
/// gives the same arena.
pub proof fn lemma_replayed_functional<T: Scalar>(
    before: Seq<Node<T>>,
    a: Seq<Node<T>>,
    b: Seq<Node<T>>,
    steps: Seq<Step<T>>,
    one: T,
    zero: T,
)
    requires
        functional::<T>(),
        replayed(before, a, steps, one, zero),
        replayed(before, b, steps, one, zero),
    ensures
        a == b,
    decreases steps.len(),
{
    if steps.len() > 0 {
        let s = steps.last();
        let ma = choose|mid: Seq<Node<T>>|
            replayed(before, mid, steps.drop_last(), one, zero) && #[trigger] accumulated(
                mid,
                a,
                s,
                one,
                zero,
            );
        let mb = choose|mid: Seq<Node<T>>|
            replayed(before, mid, steps.drop_last(), one, zero) && #[trigger] accumulated(
                mid,
                b,
                s,
                one,
                zero,
            );
        lemma_replayed_functional(before, ma, mb, steps.drop_last(), one, zero);
        let t = s.target as int;
        let da = choose|delta: T|
            #[trigger] contribution(ma, one, zero, s, delta) && added(ma[t].grad, delta, a[t].grad);
        let db = choose|delta: T|
            #[trigger] contribution(ma, one, zero, s, delta) && added(ma[t].grad, delta, b[t].grad);
        lemma_contribution_functional(ma, one, zero, s, da, db);
        assert(a[t].grad == b[t].grad);
        assert forall|k: int| 0 <= k < a.len() implies #[trigger] a[k] == b[k] by {
            if k != t {
                assert(a[k] == ma[k]);
                assert(b[k] == ma[k]);
            }
        }
        assert(a =~= b);
    }
}

proof fn lemma_steps_between_by_ops<T>(a: Seq<Node<T>>, b: Seq<Node<T>>, lo: int, hi: int)
    requires
        forall|i: int| lo <= i < hi ==> #[trigger] a[i].op == b[i].op,
    ensures
        steps_between(a, lo, hi) == steps_between(b, lo, hi),
    decreases hi - lo,
{
    if lo < hi {
        lemma_steps_between_by_ops(a, b, lo + 1, hi);
        assert(a[lo].op == b[lo].op);
    }
}

/// With a functional scalar, the backward pass from `root` gives the same
/// arena from any two arenas with the same data and operations, whatever
/// gradients they held: in particular, a second `backward(root)` leaves
/// exactly what the first one left.
pub proof fn lemma_backward_functional<T: Scalar>(
    a: Seq<Node<T>>,
    b: Seq<Node<T>>,
    root: int,
    zero: T,
    one: T,
    fa: Seq<Node<T>>,
    fb: Seq<Node<T>>,
)
    requires
        functional::<T>(),
        same_values(a, b),
        replayed(reset(a, root, zero, one), fa, backward_schedule(a), one, zero),
        replayed(reset(b, root, zero, one), fb, backward_schedule(b), one, zero),
    ensures
        fa == fb,
{
    lemma_reset_ignores_grads(a, b, root, zero, one);
    assert forall|i: int| 0 <= i < a.len() implies #[trigger] a[i].op == b[i].op by {
        assert(b[i].data == a[i].data);
    }
    lemma_steps_between_by_ops(a, b, 0, a.len() as int);
    lemma_replayed_functional(reset(a, root, zero, one), fa, fb, backward_schedule(a), one, zero);
}

/// With a functional scalar, two arenas that agree on the data below `lo`,
/// and on the operations and the leaves' data from `lo` up to `hi`, and
/// whose nodes there hold the results of their operations, agree on the
/// data of every node below `hi`.
pub proof fn lemma_computed_functional<T: Scalar>(
    a: Seq<Node<T>>,
    b: Seq<Node<T>>,
    lo: int,
    hi: int,
)
    requires
        functional::<T>(),
        topo_ordered(a),
        0 <= lo <= hi,
        hi <= a.len(),
        hi <= b.len(),
        forall|i: int| 0 <= i < lo ==> #[trigger] a[i].data == b[i].data,
        forall|i: int| lo <= i < hi ==> #[trigger] a[i].op == b[i].op,
        forall|i: int| lo <= i < hi && a[i].op is Leaf ==> #[trigger] a[i].data == b[i].data,
        computed_between(a, lo, hi),
        computed_between(b, lo, hi),
    ensures
        forall|i: int| 0 <= i < hi ==> #[trigger] a[i].data == b[i].data,
    decreases hi - lo,
{
    if lo < hi {
        let i = lo;
        assert(node_computed(a, i));
        assert(node_computed(b, i));
        assert(inputs_below(a[i].op, i));
        assert(a[i].op == b[i].op);
        match a[i].op {
            Op::Leaf => {},
            Op::Add(x, y) => {
                assert(a[x as int].data == b[x as int].data);
                assert(a[y as int].data == b[y as int].data);
            },
            Op::Mul(x, y) => {
                assert(a[x as int].data == b[x as int].data);
                assert(a[y as int].data == b[y as int].data);
            },
            Op::Pow(x, e) => {
                assert(a[x as int].data == b[x as int].data);
            },
            Op::Relu(x) => {
                assert(a[x as int].data == b[x as int].data);
            },
        }
        assert(a[i].data == b[i].data);
        assert forall|k: int| 0 <= k < lo + 1 implies #[trigger] a[k].data == b[k].data by {
            if k < lo {
                assert(a[k].data == b[k].data);
            }
        }
        lemma_computed_functional(a, b, lo + 1, hi);
    }
}

impl<T: Scalar> Graph<T> {
    /// Both arenas use the same zero and one.
    pub open spec fn same_constants(&self, other: &Self) -> bool {
        self.zero == other.zero && self.one == other.one
    }

    /// Every node from index `from` up has a zero gradient.
    pub open spec fn grads_zero_from(&self, from: int) -> bool {
        forall|i: int| from <= i < self.nodes@.len() ==> #[trigger] self.nodes@[i].grad == self.zero
    }

    /// Every node reads only nodes below it, and the arena's zero and one
    /// are the scalar's 0 and 1.
    pub open spec fn wf(&self) -> bool {
        &&& topo_ordered(self.nodes@)
        &&& ratio(0i64, 1u64, self.zero)
        &&& ratio(1i64, 1u64, self.one)
    }

    /// An empty arena.
    pub fn new() -> (g: Self)
        ensures
            g.nodes@.len() == 0,
            g.wf(),
            ratio(0i64, 1u64, g.zero),
            ratio(1i64, 1u64, g.one),
    {
        Graph { nodes: Vec::new(), zero: T::from_ratio(0, 1), one: T::from_ratio(1, 1) }
    }

    /// Push a node with a zero gradient and return its index.
    fn push(&mut self, data: T, op: Op<T>) -> (r: usize)
        requires
            old(self).wf(),
            inputs_below(op, old(self).nodes@.len() as int),
        ensures
            final(self).wf(),
            extends(old(self).nodes@, final(self).nodes@, 1),
            final(self).same_constants(&*old(self)),
            final(self).grads_zero_from(old(self).nodes@.len() as int),
            r == old(self).nodes@.len(),
            final(self).nodes@[r as int].data == data,
            final(self).nodes@[r as int].op == op,
    {
        self.nodes.push(Node { data, grad: self.zero, op });
        self.nodes.len() - 1
    }

    /// A leaf holding `data`.
    pub fn value(&mut self, data: T) -> (r: usize)
        requires
            old(self).wf(),
        ensures
            final(self).wf(),
            extends(old(self).nodes@, final(self).nodes@, 1),
            final(self).same_constants(&*old(self)),
            final(self).grads_zero_from(old(self).nodes@.len() as int),
            computed_between(final(self).nodes@, old(self).nodes@.len() as int, final(self).nodes@.len() as int),
            r == old(self).nodes@.len(),
            final(self).nodes@[r as int].data == data,
            final(self).nodes@[r as int].op == Op::<T>::Leaf,
    {
        let r = self.push(data, Op::Leaf);
        assert(node_computed(self.nodes@, r as int));
        r
    }

    // Forward operations: each reads its inputs' data, records the operation
    // and returns the index of the new node.

    /// `a + b`.
    pub fn add(&mut self, a: usize, b: usize) -> (r: usize)
        requires
            old(self).wf(),
            a < old(self).nodes@.len(),
            b < old(self).nodes@.len(),
        ensures
            final(self).wf(),
            extends(old(self).nodes@, final(self).nodes@, 1),
            final(self).same_constants(&*old(self)),
            final(self).grads_zero_from(old(self).nodes@.len() as int),
            computed_between(final(self).nodes@, old(self).nodes@.len() as int, final(self).nodes@.len() as int),
            r == old(self).nodes@.len(),
            final(self).nodes@[r as int].op == Op::<T>::Add(a, b),
            added(
                old(self).nodes@[a as int].data,
                old(self).nodes@[b as int].data,
                final(self).nodes@[r as int].data,
            ),
    {
        let d = self.nodes[a].data.add(self.nodes[b].data);
        let r = self.push(d, Op::Add(a, b));
        assert(self.nodes@[a as int] == old(self).nodes@[a as int]);
        assert(self.nodes@[b as int] == old(self).nodes@[b as int]);
        assert(node_computed(self.nodes@, r as int));
        r
    }

    /// `a * b`.
    pub fn mul(&mut self, a: usize, b: usize) -> (r: usize)
        requires
            old(self).wf(),
            a < old(self).nodes@.len(),
            b < old(self).nodes@.len(),
        ensures
            final(self).wf(),
            extends(old(self).nodes@, final(self).nodes@, 1),
            final(self).same_constants(&*old(self)),
            final(self).grads_zero_from(old(self).nodes@.len() as int),
            computed_between(final(self).nodes@, old(self).nodes@.len() as int, final(self).nodes@.len() as int),
            r == old(self).nodes@.len(),
            final(self).nodes@[r as int].op == Op::<T>::Mul(a, b),
            multiplied(
                old(self).nodes@[a as int].data,
                old(self).nodes@[b as int].data,
                final(self).nodes@[r as int].data,
            ),
    {
        let d = self.nodes[a].data.mul(self.nodes[b].data);
        let r = self.push(d, Op::Mul(a, b));
        assert(self.nodes@[a as int] == old(self).nodes@[a as int]);
        assert(self.nodes@[b as int] == old(self).nodes@[b as int]);
        assert(node_computed(self.nodes@, r as int));
        r
    }

    /// `a` raised to the constant power `exponent`.
    pub fn powf(&mut self, a: usize, exponent: T) -> (r: usize)
        requires
            old(self).wf(),
            a < old(self).nodes@.len(),
        ensures
            final(self).wf(),
            extends(old(self).nodes@, final(self).nodes@, 1),
            final(self).same_constants(&*old(self)),
            final(self).grads_zero_from(old(self).nodes@.len() as int),
            computed_between(final(self).nodes@, old(self).nodes@.len() as int, final(self).nodes@.len() as int),
            r == old(self).nodes@.len(),
            final(self).nodes@[r as int].op == Op::<T>::Pow(a, exponent),
            powered(old(self).nodes@[a as int].data, exponent, final(self).nodes@[r as int].data),
    {
        let d = self.nodes[a].data.powf(exponent);
        let r = self.push(d, Op::Pow(a, exponent));
        assert(self.nodes@[a as int] == old(self).nodes@[a as int]);
        assert(node_computed(self.nodes@, r as int));
        r
    }

    /// `max(a, 0)`.
    pub fn relu(&mut self, a: usize) -> (r: usize)
        requires
            old(self).wf(),
            a < old(self).nodes@.len(),
        ensures
            final(self).wf(),
            extends(old(self).nodes@, final(self).nodes@, 1),
            final(self).same_constants(&*old(self)),
            final(self).grads_zero_from(old(self).nodes@.len() as int),
            computed_between(final(self).nodes@, old(self).nodes@.len() as int, final(self).nodes@.len() as int),
            r == old(self).nodes@.len(),
            final(self).nodes@[r as int].op == Op::<T>::Relu(a),
            relued(old(self).nodes@[a as int].data, final(self).nodes@[r as int].data),
    {
        let d = self.nodes[a].data.relu();
        let r = self.push(d, Op::Relu(a));
        assert(self.nodes@[a as int] == old(self).nodes@[a as int]);
        assert(node_computed(self.nodes@, r as int));
        r
    }

    /// `-a`, built as `a * (-1)`: a leaf for `-1`, then the product.
    pub fn neg(&mut self, a: usize) -> (r: usize)
        requires
            old(self).wf(),
            a < old(self).nodes@.len(),
        ensures
            final(self).wf(),
            extends(old(self).nodes@, final(self).nodes@, 2),
            final(self).same_constants(&*old(self)),
            final(self).grads_zero_from(old(self).nodes@.len() as int),
            computed_between(final(self).nodes@, old(self).nodes@.len() as int, final(self).nodes@.len() as int),
            r == old(self).nodes@.len() + 1,
            final(self).nodes@[r - 1].op == Op::<T>::Leaf,
            final(self).nodes@[r as int].op == Op::<T>::Mul(a, (r - 1) as usize),
            ratio(-1i64, 1u64, final(self).nodes@[r - 1].data),
            multiplied(
                old(self).nodes@[a as int].data,
                final(self).nodes@[r - 1].data,
                final(self).nodes@[r as int].data,
            ),
    {
        let neg_1 = self.value(T::from_ratio(-1, 1));
        let ghost mid = self.nodes@;
        let r = self.mul(a, neg_1);
        proof {
            lemma_computed_append(mid, self.nodes@, old(self).nodes@.len() as int);
        }
        r
    }

    /// `a - b`, built as `a + (-b)`.
    pub fn sub(&mut self, a: usize, b: usize) -> (r: usize)
        requires
            old(self).wf(),
            a < old(self).nodes@.len(),
            b < old(self).nodes@.len(),
        ensures
            final(self).wf(),
            extends(old(self).nodes@, final(self).nodes@, 3),
            final(self).same_constants(&*old(self)),
            final(self).grads_zero_from(old(self).nodes@.len() as int),
            computed_between(final(self).nodes@, old(self).nodes@.len() as int, final(self).nodes@.len() as int),
            r == old(self).nodes@.len() + 2,
            final(self).nodes@[r - 2].op == Op::<T>::Leaf,
            final(self).nodes@[r - 1].op == Op::<T>::Mul(b, (r - 2) as usize),
            final(self).nodes@[r as int].op == Op::<T>::Add(a, (r - 1) as usize),
            ratio(-1i64, 1u64, final(self).nodes@[r - 2].data),
            multiplied(
                old(self).nodes@[b as int].data,
                final(self).nodes@[r - 2].data,
                final(self).nodes@[r - 1].data,
            ),
            added(
                old(self).nodes@[a as int].data,
                final(self).nodes@[r - 1].data,
                final(self).nodes@[r as int].data,
            ),
    {
        let neg_b = self.neg(b);
        let ghost mid = self.nodes@;
        let r = self.add(a, neg_b);
        proof {
            lemma_computed_append(mid, self.nodes@, old(self).nodes@.len() as int);
        }
        r
    }

    /// `a / b`, built as `a * b^(-1)`.
    pub fn div(&mut self, a: usize, b: usize) -> (r: usize)
        requires
            old(self).wf(),
            a < old(self).nodes@.len(),
            b < old(self).nodes@.len(),
        ensures
            final(self).wf(),
            extends(old(self).nodes@, final(self).nodes@, 2),
            final(self).same_constants(&*old(self)),
            final(self).grads_zero_from(old(self).nodes@.len() as int),
            computed_between(final(self).nodes@, old(self).nodes@.len() as int, final(self).nodes@.len() as int),
            r == old(self).nodes@.len() + 1,
            final(self).nodes@[r - 1].op matches Op::Pow(base, e) && base == b && ratio(
                -1i64,
                1u64,
                e,
            ) && powered(old(self).nodes@[b as int].data, e, final(self).nodes@[r - 1].data),
            final(self).nodes@[r as int].op == Op::<T>::Mul(a, (r - 1) as usize),
            multiplied(
                old(self).nodes@[a as int].data,
                final(self).nodes@[r - 1].data,
                final(self).nodes@[r as int].data,
            ),
    {
        let e = T::from_ratio(-1, 1);
        let inv_b = self.powf(b, e);
        let ghost mid = self.nodes@;
        let r = self.mul(a, inv_b);
        proof {
            lemma_computed_append(mid, self.nodes@, old(self).nodes@.len() as int);
        }
        r
    }

    /// The accumulations of the backward pass, in the order it makes them:
    /// nodes from the top of the arena down, each node's inputs in order.
    pub fn backward_steps(&self) -> (steps: Vec<Step<T>>)
        requires
            self.wf(),
        ensures
            steps@ == backward_schedule(self.nodes@),
    {
        let mut steps: Vec<Step<T>> = Vec::new();
        let mut i = self.nodes.len();
        while i > 0
            invariant
                i <= self.nodes@.len(),
                steps@ == steps_between(self.nodes@, i as int, self.nodes@.len() as int),
            decreases i,
        {
            i = i - 1;
            let op = self.nodes[i].op;
            match op {
                Op::Leaf => {},
                Op::Add(a, b) => {
                    steps.push(Step { target: a, source: i, rule: Rule::Pass });
                    steps.push(Step { target: b, source: i, rule: Rule::Pass });
                },
                Op::Mul(a, b) => {
                    steps.push(Step { target: a, source: i, rule: Rule::ScaledBy(b) });
                    steps.push(Step { target: b, source: i, rule: Rule::ScaledBy(a) });
                },
                Op::Pow(a, e) => {
                    steps.push(Step { target: a, source: i, rule: Rule::Power(e) });
                },
                Op::Relu(a) => {
                    steps.push(Step { target: a, source: i, rule: Rule::Gate });
                },
            }
            assert(steps@ =~= steps_between(self.nodes@, i as int, self.nodes@.len() as int));
        }
        steps
    }

    /// Set the gradient of node `i`, leaving everything else as it is.
    fn set_grad(&mut self, i: usize, grad: T)
        requires
            old(self).wf(),
            i < old(self).nodes@.len(),
        ensures
            final(self).wf(),
            final(self).same_constants(&*old(self)),
            same_values(old(self).nodes@, final(self).nodes@),
            final(self).nodes@[i as int].grad == grad,
            forall|k: int|
                0 <= k < old(self).nodes@.len() && k != i ==> #[trigger] final(self).nodes@[k]
                    == old(self).nodes@[k],
    {
        let data = self.nodes[i].data;
        let op = self.nodes[i].op;
        self.nodes.set(i, Node { data, grad, op });
        assert forall|k: int| 0 <= k < self.nodes@.len() implies #[trigger] inputs_below(
            self.nodes@[k].op,
            k,
        ) by {
            assert(inputs_below(old(self).nodes@[k].op, k));
        }
    }

    /// Replace the data of node `i`, leaving its gradient and operation.
    pub(crate) fn set_data(&mut self, i: usize, data: T)
        requires
            old(self).wf(),
            i < old(self).nodes@.len(),
        ensures
            final(self).wf(),
            final(self).same_constants(&*old(self)),
            final(self).nodes@.len() == old(self).nodes@.len(),
            final(self).nodes@[i as int].data == data,
            final(self).nodes@[i as int].grad == old(self).nodes@[i as int].grad,
            final(self).nodes@[i as int].op == old(self).nodes@[i as int].op,
            forall|k: int|
                0 <= k < old(self).nodes@.len() && k != i ==> #[trigger] final(self).nodes@[k]
                    == old(self).nodes@[k],
    {
        let grad = self.nodes[i].grad;
        let op = self.nodes[i].op;
        self.nodes.set(i, Node { data, grad, op });
        assert forall|k: int| 0 <= k < self.nodes@.len() implies #[trigger] inputs_below(
            self.nodes@[k].op,
            k,
        ) by {
            assert(inputs_below(old(self).nodes@[k].op, k));
        }
    }

    /// Make one accumulation: `grad[target] += local derivative * grad[source]`.
    fn accumulate(&mut self, step: &Step<T>)
        requires
            old(self).wf(),
            step_fits(*step, old(self).nodes@.len() as int),
        ensures
            final(self).wf(),
            final(self).same_constants(&*old(self)),
            same_values(old(self).nodes@, final(self).nodes@),
            forall|k: int|
                0 <= k < old(self).nodes@.len() && k != step.target
                    ==> #[trigger] final(self).nodes@[k] == old(self).nodes@[k],
            accumulated(old(self).nodes@, final(self).nodes@, *step, old(self).one, old(self).zero),
    {
        let ghost nodes = self.nodes@;
        let grad = self.nodes[step.source].grad;
        let delta = match step.rule {
            Rule::Pass => grad,
            Rule::ScaledBy(o) => self.nodes[o].data.mul(grad),
            Rule::Power(e) => {
                let e1 = e.sub(self.one);
                let p = self.nodes[step.target].data.powf(e1);
                let d = e.mul(p);
                let r = d.mul(grad);
                assert(subtracted(e, self.one, e1) && powered(nodes[step.target as int].data, e1, p)
                    && multiplied(e, p, d) && multiplied(d, grad, r));
                r
            },
            Rule::Gate => {
                let b = self.nodes[step.source].data.is_positive();
                assert(positive(nodes[step.source as int].data, b));
                if b {
                    grad
                } else {
                    self.zero
                }
            },
        };
        assert(contribution(nodes, self.one, self.zero, *step, delta));
        let old_grad = self.nodes[step.target].grad;
        let sum = old_grad.add(delta);
        self.set_grad(step.target, sum);
        assert(added(nodes[step.target as int].grad, delta, self.nodes@[step.target as int].grad));
        assert(self.nodes@[step.target as int].data == nodes[step.target as int].data);
    }

    /// Reverse-mode differentiation from `root`: every gradient is reset to
    /// zero, `root`'s is seeded with one, then the accumulations of
    /// [`backward_steps`](Graph::backward_steps) are made in order, walking the
    /// arena from the top down. Node data and operations are left as they
    /// are; a node that no accumulation writes to keeps its reset gradient.
    pub fn backward(&mut self, root: usize)
        requires
            old(self).wf(),
            root < old(self).nodes@.len(),
        ensures
            final(self).wf(),
            final(self).same_constants(&*old(self)),
            same_values(old(self).nodes@, final(self).nodes@),
            forall|i: int|
                0 <= i < old(self).nodes@.len() && i != root && !targeted(
                    backward_schedule(old(self).nodes@),
                    i,
                ) ==> #[trigger] final(self).nodes@[i].grad == final(self).zero,
            !targeted(backward_schedule(old(self).nodes@), root as int)
                ==> final(self).nodes@[root as int].grad == final(self).one,
            replayed(
                reset(old(self).nodes@, root as int, old(self).zero, old(self).one),
                final(self).nodes@,
                backward_schedule(old(self).nodes@),
                old(self).one,
                old(self).zero,
            ),
    {
        let steps = self.backward_steps();
        let ghost schedule = steps@;
        let n = self.nodes.len();
        proof {
            lemma_backward_schedule(self.nodes@);
        }
        let zero = self.zero;
        let mut i: usize = 0;
        while i < n
            invariant
                i <= n,
                n == self.nodes@.len(),
                self.wf(),
                self.same_constants(&*old(self)),
                zero == self.zero,
                same_values(old(self).nodes@, self.nodes@),
                forall|k: int| 0 <= k < i ==> #[trigger] self.nodes@[k].grad == zero,
            decreases n - i,
        {
            self.set_grad(i, zero);
            i = i + 1;
        }
        let ghost zeroed = self.nodes@;
        let one = self.one;
        self.set_grad(root, one);
        assert(same_values(old(self).nodes@, self.nodes@)) by {
            assert forall|k: int| 0 <= k < old(self).nodes@.len() implies #[trigger] self.nodes@[k].data
                == old(self).nodes@[k].data && self.nodes@[k].op == old(self).nodes@[k].op by {
                assert(self.nodes@[k].data == zeroed[k].data);
                assert(zeroed[k].data == old(self).nodes@[k].data);
            }
        }
        proof {
            let start = reset(old(self).nodes@, root as int, old(self).zero, old(self).one);
            assert forall|k: int| 0 <= k < start.len() implies #[trigger] self.nodes@[k] == start[k] by {
                assert(self.nodes@[k].data == old(self).nodes@[k].data);
                assert(self.nodes@[k].op == old(self).nodes@[k].op);
                if k != root {
                    assert(self.nodes@[k] == zeroed[k]);
                    assert(zeroed[k].grad == zero);
                }
                assert(self.nodes@[k].grad == start[k].grad);
            }
            assert(self.nodes@ =~= start);
            assert(schedule.take(0) =~= Seq::<Step<T>>::empty());
        }
        let mut j: usize = 0;
        while j < steps.len()
            invariant
                j <= steps@.len(),
                schedule == steps@,
                root < self.nodes@.len(),
                self.wf(),
                self.same_constants(&*old(self)),
                same_values(old(self).nodes@, self.nodes@),
                forall|p: int|
                    0 <= p < steps@.len() ==> step_fits(
                        #[trigger] steps@[p],
                        self.nodes@.len() as int,
                    ),
                forall|k: int|
                    0 <= k < self.nodes@.len() && k != root && !targeted(
                        schedule.take(j as int),
                        k,
                    ) ==> #[trigger] self.nodes@[k].grad == self.zero,
                !targeted(schedule.take(j as int), root as int) ==> self.nodes@[root as int].grad
                    == self.one,
                replayed(
                    reset(old(self).nodes@, root as int, old(self).zero, old(self).one),
                    self.nodes@,
                    schedule.take(j as int),
                    old(self).one,
                    old(self).zero,
                ),
            decreases steps.len() - j,
        {
            let ghost before = self.nodes@;
            let step = &steps[j];
            self.accumulate(step);
            proof {
                let pre = schedule.take(j as int);
                let post = schedule.take(j + 1);
                assert(post =~= pre.push(*step));
                lemma_replayed_push(
                    reset(old(self).nodes@, root as int, old(self).zero, old(self).one),
                    before,
                    self.nodes@,
                    pre,
                    *step,
                    old(self).one,
                    old(self).zero,
                );
                assert forall|k: int| 0 <= k < self.nodes@.len() && k != root && !targeted(post, k)
                    implies #[trigger] self.nodes@[k].grad == self.zero by {
                    if targeted(pre, k) {
                        let p = choose|p: int| 0 <= p < pre.len() && #[trigger] pre[p].target == k;
                        assert(post[p] == pre[p]);
                    }
                    assert(post[j as int] == step);
                    assert(self.nodes@[k] == before[k]);
                }
                if !targeted(post, root as int) {
                    if targeted(pre, root as int) {
                        let p = choose|p: int|
                            0 <= p < pre.len() && #[trigger] pre[p].target == root as int;
                        assert(post[p] == pre[p]);
                    }
                    assert(post[j as int] == step);
                    assert(self.nodes@[root as int] == before[root as int]);
                }
            }
            j = j + 1;
        }
        proof {
            assert(schedule.take(j as int) =~= schedule);
        }
    }

    /// Drop every node from index `len` up, keeping the ones below.
    pub fn truncate(&mut self, len: usize)
        requires
            old(self).wf(),
        ensures
            final(self).wf(),
            final(self).same_constants(&*old(self)),
            final(self).nodes@ == old(self).nodes@.take(
                if len <= old(self).nodes@.len() { len as int } else { old(self).nodes@.len() as int },
            ),
    {
        self.nodes.truncate(len);
    }
}

impl<T: Scalar> Default for Graph<T> {
    fn default() -> (g: Self)
        ensures
            g.nodes@.len() == 0,
    {
        Self::new()
    }
}

} // verus!
