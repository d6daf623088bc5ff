//! Training a binary classifier (SVM hinge loss plus L2 regularisation) one
//! step at a time, over a fixed dataset.

use vstd::prelude::*;
use crate::engine::{
    Graph, Node, Op, Scalar, backward_schedule, topo_ordered, computed_between, counted, divided, extends, grows,
    lemma_computed_append, multiplied, positive, ratio, replayed, reset, subtracted,
};
use crate::nn::{
    MLP, WeightInit, all_below, index_range, lemma_network_appended_by_ops,
    lemma_network_appended_kept, lemma_network_growth_nonneg, lemma_network_outputs_below,
    lemma_network_outputs_len, network_appended, network_growth, network_outputs, same_ops_between,
    fan_in, layer_he_weights, layer_weights_from,
};
use crate::text::{decimal, decimal_list, layout_json};

verus! {

/// `later` has at least the nodes of `nodes`, and from node `base` up their
/// operations and data are the same (gradients may differ).
pub open spec fn agrees_from<T>(nodes: Seq<Node<T>>, later: Seq<Node<T>>, base: int) -> bool {
    &&& nodes.len() <= later.len()
    &&& forall|i: int|
        base <= i < nodes.len() ==> (#[trigger] later[i]).op == nodes[i].op && later[i].data
            == nodes[i].data
}

proof fn lemma_grows_agrees<T>(nodes: Seq<Node<T>>, later: Seq<Node<T>>, base: int)
    requires
        grows(nodes, later),
        0 <= base,
    ensures
        agrees_from(nodes, later, base),
{
    assert forall|i: int| base <= i < nodes.len() implies (#[trigger] later[i]).op == nodes[i].op
        && later[i].data == nodes[i].data by {
        if 0 <= i {
            assert(later[i] == nodes[i]);
        }
    }
}

/// A new leaf for each value of `x`, in order.
fn push_leaves<T: Scalar>(g: &mut Graph<T>, x: &[T]) -> (leaves: Vec<usize>)
    requires
        old(g).wf(),
    ensures
        final(g).wf(),
        final(g).same_constants(&*old(g)),
        extends(old(g).nodes@, final(g).nodes@, x@.len() as int),
        leaves@ == index_range(old(g).nodes@.len() as int, x@.len() as int),
        leaves_hold(final(g).nodes@, old(g).nodes@.len() as int, x@),
        computed_between(final(g).nodes@, old(g).nodes@.len() as int, final(g).nodes@.len() as int),
{
    let ghost base = old(g).nodes@.len() as int;
    let mut leaves: Vec<usize> = Vec::new();
    let mut d: usize = 0;
    while d < x.len()
        invariant
            d <= x@.len(),
            base == old(g).nodes@.len(),
            g.wf(),
            g.same_constants(&*old(g)),
            extends(old(g).nodes@, g.nodes@, d as int),
            leaves@ == index_range(base, d as int),
            leaves_hold(g.nodes@, base, x@.take(d as int)),
            computed_between(g.nodes@, base, g.nodes@.len() as int),
        decreases x@.len() - d,
    {
        let ghost before = g.nodes@;
        let leaf = g.value(x[d]);
        proof {
            lemma_computed_append(before, g.nodes@, base);
        }
        leaves.push(leaf);
        assert forall|i: int| base <= i < base + d + 1 implies (#[trigger] g.nodes@[i]).op
            == Op::<T>::Leaf && g.nodes@[i].data == x@.take(d + 1)[i - base] by {
            if i < base + d {
                assert(g.nodes@[i] == before[i]);
                assert(before[i].data == x@.take(d as int)[i - base]);
            }
        }
        d = d + 1;
        assert(leaves@ =~= index_range(base, d as int));
    }
    assert(x@.take(d as int) =~= x@);
    leaves
}

/// `after` is `before` with parameter `p` moved against its gradient once:
/// its data becomes `data - lr * grad`; its gradient, its operation and every
/// other node stay as they are.
pub open spec fn moved<T: Scalar>(before: Seq<Node<T>>, after: Seq<Node<T>>, p: usize, lr: T) -> bool {
    &&& p < before.len()
    &&& after.len() == before.len()
    &&& forall|k: int| 0 <= k < before.len() && k != p ==> #[trigger] after[k] == before[k]
    &&& after[p as int].grad == before[p as int].grad
    &&& after[p as int].op == before[p as int].op
    &&& exists|m: T|
        #[trigger] multiplied(lr, before[p as int].grad, m) && subtracted(
            before[p as int].data,
            m,
            after[p as int].data,
        )
}

/// `after` is `before` with every parameter of `params` moved against its
/// gradient, one after the other in order (a parameter listed twice moves
/// twice).
pub open spec fn descended<T: Scalar>(
    before: Seq<Node<T>>,
    after: Seq<Node<T>>,
    params: Seq<usize>,
    lr: T,
) -> bool
    decreases params.len(),
{
    if params.len() == 0 {
        after == before
    } else {
        exists|mid: Seq<Node<T>>|
            descended(before, mid, params.drop_last(), lr) && #[trigger] moved(
                mid,
                after,
                params.last(),
                lr,
            )
    }
}

proof fn lemma_descended_push<T: Scalar>(
    before: Seq<Node<T>>,
    mid: Seq<Node<T>>,
    after: Seq<Node<T>>,
    params: Seq<usize>,
    p: usize,
    lr: T,
)
    requires
        descended(before, mid, params, lr),
        moved(mid, after, p, lr),
    ensures
        descended(before, after, params.push(p), lr),
{
    assert(params.push(p).drop_last() =~= params);
    assert(params.push(p).last() == p);
}

/// Move every parameter in `params` against its gradient: `data -= lr * grad`,
/// in the order of `params`. Gradients and operations are kept, and so is
/// every node not listed; parameters lie below node `bound`, so nothing from
/// `bound` up changes.
fn descend<T: Scalar>(g: &mut Graph<T>, params: &[usize], lr: T, Ghost(bound): Ghost<int>)
    requires
        old(g).wf(),
        all_below(params@, bound),
        bound <= old(g).nodes@.len(),
    ensures
        final(g).wf(),
        final(g).same_constants(&*old(g)),
        final(g).nodes@.len() == old(g).nodes@.len(),
        forall|i: int|
            0 <= i < old(g).nodes@.len() ==> #[trigger] final(g).nodes@[i].op == old(
                g,
            ).nodes@[i].op,
        agrees_from(old(g).nodes@, final(g).nodes@, bound),
        descended(old(g).nodes@, final(g).nodes@, params@, lr),
{
    let mut i: usize = 0;
    proof {
        assert(descended(old(g).nodes@, g.nodes@, params@.take(0), lr));
    }
    while i < params.len()
        invariant
            i <= params@.len(),
            g.wf(),
            g.same_constants(&*old(g)),
            g.nodes@.len() == old(g).nodes@.len(),
            all_below(params@, bound),
            bound <= old(g).nodes@.len(),
            forall|k: int|
                0 <= k < old(g).nodes@.len() ==> #[trigger] g.nodes@[k].op == old(g).nodes@[k].op,
            forall|k: int| bound <= k < old(g).nodes@.len() ==> #[trigger] g.nodes@[k] == old(
                g,
            ).nodes@[k],
            descended(old(g).nodes@, g.nodes@, params@.take(i as int), lr),
        decreases params@.len() - i,
    {
        let p = params[i];
        let data = g.nodes[p].data;
        let grad = g.nodes[p].grad;
        let ghost before = g.nodes@;
        let m = lr.mul(grad);
        let moved_data = data.sub(m);
        g.set_data(p, moved_data);
        assert forall|k: int| 0 <= k < old(g).nodes@.len() implies #[trigger] g.nodes@[k].op
            == old(g).nodes@[k].op by {
            assert(g.nodes@[k].op == before[k].op);
        }
        assert forall|k: int| bound <= k < old(g).nodes@.len() implies #[trigger] g.nodes@[k]
            == old(g).nodes@[k] by {
            assert(g.nodes@[k] == before[k]);
        }
        proof {
            assert(multiplied(lr, before[p as int].grad, m));
            assert(moved(before, g.nodes@, p, lr));
            let done = params@.take(i + 1);
            assert(done.drop_last() =~= params@.take(i as int));
            assert(done.last() == p);
            assert(done =~= params@.take(i as int).push(p));
            lemma_descended_push(old(g).nodes@, before, g.nodes@, params@.take(i as int), p, lr);
        }
        i = i + 1;
    }
    proof {
        assert(params@.take(i as int) =~= params@);
    }
}

/// The running sum after the first `i + 1` squares of a chain of squares
/// that starts at node `base`.
pub open spec fn square_sum_at(base: int, i: int) -> int {
    if i == 0 {
        base
    } else {
        base + 2 * i
    }
}

/// From node `base` up, `nodes` holds `ps[0] * ps[0]`, then for each later
/// parameter its square and the running sum of the squares so far.
pub open spec fn squares_chain<T>(nodes: Seq<Node<T>>, base: int, ps: Seq<usize>) -> bool {
    &&& nodes[base].op == Op::<T>::Mul(ps[0], ps[0])
    &&& forall|i: int|
        1 <= i < ps.len() ==> {
            &&& nodes[base + 2 * i - 1].op == Op::<T>::Mul(#[trigger] ps[i], ps[i])
            &&& nodes[base + 2 * i].op == Op::<T>::Add(
                square_sum_at(base, i - 1) as usize,
                (base + 2 * i - 1) as usize,
            )
        }
}

proof fn lemma_squares_chain_kept<T>(
    nodes: Seq<Node<T>>,
    later: Seq<Node<T>>,
    base: int,
    ps: Seq<usize>,
)
    requires
        squares_chain(nodes, base, ps),
        0 <= base,
        ps.len() > 0,
        base + 2 * ps.len() - 1 <= nodes.len(),
        agrees_from(nodes, later, base),
    ensures
        squares_chain(later, base, ps),
{
    assert(later[base].op == nodes[base].op);
    assert forall|i: int| 1 <= i < ps.len() implies {
        &&& later[base + 2 * i - 1].op == Op::<T>::Mul(#[trigger] ps[i], ps[i])
        &&& later[base + 2 * i].op == Op::<T>::Add(
            square_sum_at(base, i - 1) as usize,
            (base + 2 * i - 1) as usize,
        )
    } by {
        assert(nodes[base + 2 * i - 1].op == Op::<T>::Mul(ps[i], ps[i]));
        assert(nodes[base + 2 * i].op == Op::<T>::Add(
            square_sum_at(base, i - 1) as usize,
            (base + 2 * i - 1) as usize,
        ));
        let j1 = base + 2 * i - 1;
        let j2 = base + 2 * i;
        assert(base <= j1 < nodes.len());
        assert(base <= j2 < nodes.len());
        assert(later[j1].op == nodes[j1].op);
        assert(later[j2].op == nodes[j2].op);
    }
}

proof fn lemma_sum_chain_kept<T>(nodes: Seq<Node<T>>, later: Seq<Node<T>>, base: int, hs: Seq<usize>)
    requires
        sum_chain(nodes, base, hs),
        0 <= base,
        base + hs.len() - 1 <= nodes.len(),
        agrees_from(nodes, later, base),
    ensures
        sum_chain(later, base, hs),
{
    assert forall|k: int| 1 <= k < hs.len() implies later[base + k - 1].op == Op::<T>::Add(
        chain_sum_at(base, hs, k - 1) as usize,
        #[trigger] hs[k],
    ) by {
        assert(later[base + k - 1].op == nodes[base + k - 1].op);
    }
}

/// `ps[0]^2 + ps[1]^2 + ...`, summed from the left; returns the sum's node.
fn sum_of_squares<T: Scalar>(g: &mut Graph<T>, ps: &[usize]) -> (r: usize)
    requires
        old(g).wf(),
        ps@.len() > 0,
        all_below(ps@, old(g).nodes@.len() as int),
    ensures
        final(g).wf(),
        final(g).same_constants(&*old(g)),
        extends(old(g).nodes@, final(g).nodes@, 2 * ps@.len() - 1),
        squares_chain(final(g).nodes@, old(g).nodes@.len() as int, ps@),
        r == square_sum_at(old(g).nodes@.len() as int, ps@.len() - 1),
        computed_between(final(g).nodes@, old(g).nodes@.len() as int, final(g).nodes@.len() as int),
{
    let ghost base = old(g).nodes@.len() as int;
    let mut sum = g.mul(ps[0], ps[0]);
    let mut p: usize = 1;
    while p < ps.len()
        invariant
            1 <= p <= ps@.len(),
            base == old(g).nodes@.len(),
            g.wf(),
            g.same_constants(&*old(g)),
            extends(old(g).nodes@, g.nodes@, 2 * p - 1),
            all_below(ps@, old(g).nodes@.len() as int),
            sum == square_sum_at(base, p - 1),
            g.nodes@[base].op == Op::<T>::Mul(ps@[0], ps@[0]),
            computed_between(g.nodes@, base, g.nodes@.len() as int),
            forall|i: int|
                1 <= i < p ==> {
                    &&& g.nodes@[base + 2 * i - 1].op == Op::<T>::Mul(#[trigger] ps@[i], ps@[i])
                    &&& g.nodes@[base + 2 * i].op == Op::<T>::Add(
                        square_sum_at(base, i - 1) as usize,
                        (base + 2 * i - 1) as usize,
                    )
                },
        decreases ps@.len() - p,
    {
        let ghost before = g.nodes@;
        let sq = g.mul(ps[p], ps[p]);
        let ghost mid = g.nodes@;
        let ghost prev_sum = sum;
        proof {
            lemma_computed_append(before, mid, base);
        }
        sum = g.add(sum, sq);
        proof {
            lemma_computed_append(mid, g.nodes@, base);
            assert(g.nodes@[base] == before[base]);
            assert forall|i: int| 1 <= i < p + 1 implies {
                &&& g.nodes@[base + 2 * i - 1].op == Op::<T>::Mul(#[trigger] ps@[i], ps@[i])
                &&& g.nodes@[base + 2 * i].op == Op::<T>::Add(
                    square_sum_at(base, i - 1) as usize,
                    (base + 2 * i - 1) as usize,
                )
            } by {
                if i < p {
                    assert(before[base + 2 * i - 1].op == Op::<T>::Mul(ps@[i], ps@[i]));
                    assert(g.nodes@[base + 2 * i - 1] == mid[base + 2 * i - 1]);
                    assert(mid[base + 2 * i - 1] == before[base + 2 * i - 1]);
                    assert(g.nodes@[base + 2 * i] == mid[base + 2 * i]);
                    assert(mid[base + 2 * i] == before[base + 2 * i]);
                } else {
                    assert(sq == base + 2 * i - 1);
                    assert(g.nodes@[base + 2 * i - 1] == mid[base + 2 * i - 1]);
                }
            }
            assert forall|i: int| 0 <= i < base implies #[trigger] g.nodes@[i] == old(
                g,
            ).nodes@[i] by {
                assert(g.nodes@[i] == mid[i]);
                assert(mid[i] == before[i]);
            }
        }
        p = p + 1;
    }
    sum
}

/// How many nodes the hinge loss of one point with `n_inputs` features
/// appends: the feature leaves, the forward pass, then seven more nodes.
pub open spec fn hinge_growth(model: MLP, n_inputs: int) -> int {
    n_inputs + network_growth(model.layer_seq(), n_inputs) + 7
}

/// From node `b` up, `nodes` holds the hinge loss `relu(1 - y * score)` of the
/// point `x` with label `y`: a leaf per feature, the model's forward pass over
/// them, a leaf for `y`, the product `y * score` (the score being the model's
/// first output), a leaf for 1, the negation of the product (a leaf for -1
/// and a product), the sum, and its ReLU.
pub open spec fn hinge_block<T: Scalar>(nodes: Seq<Node<T>>, b: int, model: MLP, x: Seq<T>, y: T) -> bool {
    let xl = x.len() as int;
    let score = network_outputs(model.layer_seq(), index_range(b, xl), b + xl)[0];
    let yn = b + xl + network_growth(model.layer_seq(), xl);
    &&& leaves_hold(nodes, b, x)
    &&& network_appended(model.layer_seq(), nodes, index_range(b, xl), b + xl)
    &&& nodes[yn].op == Op::<T>::Leaf
    &&& nodes[yn].data == y
    &&& nodes[yn + 1].op == Op::<T>::Mul(yn as usize, score)
    &&& nodes[yn + 2].op == Op::<T>::Leaf
    &&& ratio(1i64, 1u64, nodes[yn + 2].data)
    &&& nodes[yn + 3].op == Op::<T>::Leaf
    &&& ratio(-1i64, 1u64, nodes[yn + 3].data)
    &&& nodes[yn + 4].op == Op::<T>::Mul((yn + 1) as usize, (yn + 3) as usize)
    &&& nodes[yn + 5].op == Op::<T>::Add((yn + 2) as usize, (yn + 4) as usize)
    &&& nodes[yn + 6].op == Op::<T>::Relu((yn + 5) as usize)
}

/// `ok` is whether `y` and `s` are both positive or both not, as the
/// scalar's `is_positive` decides.
pub open spec fn sign_agrees<T: Scalar>(y: T, s: T, ok: bool) -> bool {
    exists|py: bool, ps: bool|
        #![trigger positive(y, py), positive(s, ps)]
        positive(y, py) && positive(s, ps) && ok == (py == ps)
}

/// With a functional scalar, a point counts as correct exactly when its label
/// and its score are both positive or both not positive: a negative label
/// with a negative score counts, a positive label with a negative score
/// does not.
pub proof fn lemma_sign_agrees_exactly<T: Scalar>(y: T, s: T, py: bool, ps: bool, ok: bool)
    requires
        crate::engine::functional::<T>(),
        positive(y, py),
        positive(s, ps),
        sign_agrees(y, s, ok),
    ensures
        ok == (py == ps),
{
    let (qy, qs) = choose|qy: bool, qs: bool| positive(y, qy) && positive(s, qs) && ok == (qy == qs);
    assert(qy == py);
    assert(qs == ps);
}

/// With a functional scalar, the number of correctly scored points is the
/// number of points whose label and score are positive alike, the scalar's
/// `is_positive` deciding each.
pub proof fn lemma_correct_count<T: Scalar>(
    nodes: Seq<Node<T>>,
    base: int,
    model: MLP,
    xs: Seq<Vec<T>>,
    ys: Seq<T>,
    m: int,
    correct: int,
    label_positive: Seq<bool>,
    score_positive: Seq<bool>,
)
    requires
        crate::engine::functional::<T>(),
        scored_correctly(nodes, base, model, xs, ys, m, correct),
        label_positive.len() == m,
        score_positive.len() == m,
        forall|i: int|
            0 <= i < m ==> positive(ys[i], #[trigger] label_positive[i]) && positive(
                nodes[point_score(model, xs, i, base)].data,
                score_positive[i],
            ),
    ensures
        correct == count_true(
            Seq::new(m as nat, |i: int| label_positive[i] == score_positive[i]),
        ),
{
    let oks = choose|oks: Seq<bool>|
        #[trigger] count_true(oks) == correct && oks.len() == m && forall|i: int|
            0 <= i < m ==> sign_agrees(
                ys[i],
                nodes[point_score(model, xs, i, base)].data,
                #[trigger] oks[i],
            );
    let want = Seq::new(m as nat, |i: int| label_positive[i] == score_positive[i]);
    assert forall|i: int| 0 <= i < m implies oks[i] == want[i] by {
        assert(positive(ys[i], label_positive[i]));
        lemma_sign_agrees_exactly(
            ys[i],
            nodes[point_score(model, xs, i, base)].data,
            label_positive[i],
            score_positive[i],
            oks[i],
        );
    }
    assert(oks =~= want);
}

/// How many of `oks` are true.
pub open spec fn count_true(oks: Seq<bool>) -> int
    decreases oks.len(),
{
    if oks.len() == 0 {
        0
    } else {
        count_true(oks.drop_last()) + if oks.last() {
            1int
        } else {
            0int
        }
    }
}

/// The node of the model's score of point `i` in a loss built on an arena of
/// `base` nodes.
pub open spec fn point_score<T>(model: MLP, xs: Seq<Vec<T>>, i: int, base: int) -> int {
    let b = base + points_growth(model, xs, i);
    let xl = xs[i]@.len() as int;
    network_outputs(model.layer_seq(), index_range(b, xl), b + xl)[0] as int
}

/// `correct` counts the first `m` points whose label and score, in a loss
/// built on an arena of `base` nodes, have the same sign.
pub open spec fn scored_correctly<T: Scalar>(
    nodes: Seq<Node<T>>,
    base: int,
    model: MLP,
    xs: Seq<Vec<T>>,
    ys: Seq<T>,
    m: int,
    correct: int,
) -> bool {
    exists|oks: Seq<bool>|
        #[trigger] count_true(oks) == correct && oks.len() == m && forall|i: int|
            0 <= i < m ==> sign_agrees(
                ys[i],
                nodes[point_score(model, xs, i, base)].data,
                #[trigger] oks[i],
            )
}

proof fn lemma_point_score_below<T>(model: MLP, xs: Seq<Vec<T>>, i: int, j: int, base: int)
    requires
        0 <= i < j <= xs.len(),
        0 <= base,
        model.layer_seq().len() > 0,
        model.layer_seq().last().neuron_seq().len() > 0,
        model.fits(base),
    ensures
        0 <= point_score(model, xs, i, base) < base + points_growth(model, xs, j),
{
    lemma_points_growth_mono(model, xs, i, j);
    let b = base + points_growth(model, xs, i);
    let xl = xs[i]@.len() as int;
    model.lemma_fits_larger(base, b + xl);
    let ls = model.layer_seq();
    assert forall|l: int| 0 <= l < ls.len() implies #[trigger] ls[l].fits(b + xl) by {}
    lemma_network_outputs_below(ls, index_range(b, xl), b + xl);
    lemma_network_outputs_len(ls, index_range(b, xl), b + xl);
}

/// From node `b` up, `nodes` holds a leaf for each value of `x`.
pub open spec fn leaves_hold<T>(nodes: Seq<Node<T>>, b: int, x: Seq<T>) -> bool {
    forall|i: int|
        b <= i < b + x.len() ==> (#[trigger] nodes[i]).op == Op::<T>::Leaf && nodes[i].data == x[i
            - b]
}

proof fn lemma_hinge_block_kept<T: Scalar>(
    nodes: Seq<Node<T>>,
    later: Seq<Node<T>>,
    b: int,
    model: MLP,
    x: Seq<T>,
    y: T,
)
    requires
        hinge_block(nodes, b, model, x, y),
        0 <= b,
        b + hinge_growth(model, x.len() as int) <= nodes.len(),
        agrees_from(nodes, later, b),
    ensures
        hinge_block(later, b, model, x, y),
{
    let xl = x.len() as int;
    lemma_network_growth_nonneg(model.layer_seq(), xl);
    let yn = b + xl + network_growth(model.layer_seq(), xl);
    assert(leaves_hold(later, b, x));
    assert(same_ops_between(nodes, later, b + xl, yn)) by {
        assert forall|k: int| b + xl <= k < yn implies #[trigger] nodes[k].op == later[k].op by {
            assert(later[k].op == nodes[k].op && later[k].data == nodes[k].data);
        }
    }
    lemma_network_appended_by_ops(model.layer_seq(), nodes, later, index_range(b, xl), b + xl);
    assert(later[yn].op == nodes[yn].op && later[yn].data == nodes[yn].data);
    assert(later[yn + 1].op == nodes[yn + 1].op);
    assert(later[yn + 2].op == nodes[yn + 2].op && later[yn + 2].data == nodes[yn + 2].data);
    assert(later[yn + 3].op == nodes[yn + 3].op && later[yn + 3].data == nodes[yn + 3].data);
    assert(later[yn + 4].op == nodes[yn + 4].op);
    assert(later[yn + 5].op == nodes[yn + 5].op);
    assert(later[yn + 6].op == nodes[yn + 6].op);
}

/// The hinge loss of one point: returns its node, and whether the model
/// scored the point on the side of its label.
fn hinge_point<T: Scalar>(g: &mut Graph<T>, model: &MLP, x: &[T], y: T) -> (r: (usize, bool))
    requires
        old(g).wf(),
        model.fits(old(g).nodes@.len() as int),
        model.layer_seq().len() > 0,
        model.layer_seq().last().neuron_seq().len() > 0,
    ensures
        final(g).wf(),
        final(g).same_constants(&*old(g)),
        extends(old(g).nodes@, final(g).nodes@, hinge_growth(*model, x@.len() as int)),
        hinge_block(final(g).nodes@, old(g).nodes@.len() as int, *model, x@, y),
        r.0 == final(g).nodes@.len() - 1,
        computed_between(final(g).nodes@, old(g).nodes@.len() as int, final(g).nodes@.len() as int),
        sign_agrees(
            y,
            final(g).nodes@[network_outputs(
                model.layer_seq(),
                index_range(old(g).nodes@.len() as int, x@.len() as int),
                (old(g).nodes@.len() + x@.len()) as int,
            )[0] as int].data,
            r.1,
        ),
{
    let ghost b = old(g).nodes@.len() as int;
    let ghost xl = x@.len() as int;
    let leaves = push_leaves(g, x);
    let ghost s1 = g.nodes@;
    proof {
        model.lemma_fits_larger(b, g.nodes@.len() as int);
        lemma_network_outputs_len(model.layer_seq(), leaves@, g.nodes@.len() as int);
        lemma_network_growth_nonneg(model.layer_seq(), xl);
    }
    let out = model.forward(g, leaves.as_slice());
    let score = out[0];
    let py = y.is_positive();
    let ps = g.nodes[score].data.is_positive();
    let ok = py == ps;
    let ghost s2 = g.nodes@;
    proof {
        lemma_computed_append(s1, s2, b);
        assert(positive(y, py) && positive(s2[score as int].data, ps));
    }
    let yi_node = g.value(y);
    let ghost s3 = g.nodes@;
    let ys_prod = g.mul(yi_node, score);
    let ghost s4 = g.nodes@;
    let one = g.value(T::from_ratio(1, 1));
    let ghost s5 = g.nodes@;
    let margin = g.sub(one, ys_prod);
    let ghost s6 = g.nodes@;
    let hinge = g.relu(margin);
    proof {
        lemma_computed_append(s2, s3, b);
        lemma_computed_append(s3, s4, b);
        lemma_computed_append(s4, s5, b);
        lemma_computed_append(s5, s6, b);
        lemma_computed_append(s6, g.nodes@, b);
        assert(g.nodes@[score as int] == s2[score as int]);
        let yn = b + xl + network_growth(model.layer_seq(), xl);
        assert(yi_node == yn);
        assert forall|k: int| 0 <= k < s2.len() implies #[trigger] g.nodes@[k] == s2[k] by {}
        assert forall|k: int| 0 <= k < s1.len() implies #[trigger] g.nodes@[k] == s1[k] by {
            assert(s2[k] == s1[k]);
        }
        assert forall|k: int| 0 <= k < b implies #[trigger] g.nodes@[k] == old(g).nodes@[k] by {
            assert(g.nodes@[k] == s1[k]);
        }
        assert(leaves_hold(g.nodes@, b, x@));
        lemma_network_growth_nonneg(model.layer_seq(), xl);
        lemma_network_appended_kept(model.layer_seq(), s2, g.nodes@, leaves@, b + xl);
    }
    (hinge, ok)
}

/// The running sum after the first `k + 1` terms of a chain of sums over
/// the nodes `hs` that starts at node `base`.
pub open spec fn chain_sum_at(base: int, hs: Seq<usize>, k: int) -> int {
    if k == 0 {
        hs[0] as int
    } else {
        base + k - 1
    }
}

/// From node `base` up, `nodes` holds the running sums `hs[0] + hs[1]`,
/// then that plus `hs[2]`, and so on.
pub open spec fn sum_chain<T>(nodes: Seq<Node<T>>, base: int, hs: Seq<usize>) -> bool {
    forall|k: int|
        1 <= k < hs.len() ==> nodes[base + k - 1].op == Op::<T>::Add(
            chain_sum_at(base, hs, k - 1) as usize,
            #[trigger] hs[k],
        )
}

/// `hs[0] + hs[1] + ...`, summed from the left; returns the sum's node.
fn sum_nodes<T: Scalar>(g: &mut Graph<T>, hs: &[usize]) -> (r: usize)
    requires
        old(g).wf(),
        hs@.len() > 0,
        all_below(hs@, old(g).nodes@.len() as int),
    ensures
        final(g).wf(),
        final(g).same_constants(&*old(g)),
        extends(old(g).nodes@, final(g).nodes@, hs@.len() - 1),
        sum_chain(final(g).nodes@, old(g).nodes@.len() as int, hs@),
        r == chain_sum_at(old(g).nodes@.len() as int, hs@, hs@.len() - 1),
        computed_between(final(g).nodes@, old(g).nodes@.len() as int, final(g).nodes@.len() as int),
{
    let ghost base = old(g).nodes@.len() as int;
    let mut sum = hs[0];
    let mut k: usize = 1;
    while k < hs.len()
        invariant
            1 <= k <= hs@.len(),
            base == old(g).nodes@.len(),
            g.wf(),
            g.same_constants(&*old(g)),
            extends(old(g).nodes@, g.nodes@, k - 1),
            all_below(hs@, old(g).nodes@.len() as int),
            sum == chain_sum_at(base, hs@, k - 1),
            computed_between(g.nodes@, base, g.nodes@.len() as int),
            forall|i: int|
                1 <= i < k ==> g.nodes@[base + i - 1].op == Op::<T>::Add(
                    chain_sum_at(base, hs@, i - 1) as usize,
                    #[trigger] hs@[i],
                ),
        decreases hs@.len() - k,
    {
        let ghost before = g.nodes@;
        sum = g.add(sum, hs[k]);
        proof {
            lemma_computed_append(before, g.nodes@, base);
            assert forall|i: int| 1 <= i < k + 1 implies g.nodes@[base + i - 1].op
                == Op::<T>::Add(chain_sum_at(base, hs@, i - 1) as usize, #[trigger] hs@[i]) by {
                if i < k {
                    assert(g.nodes@[base + i - 1] == before[base + i - 1]);
                }
            }
            assert forall|i: int| 0 <= i < base implies #[trigger] g.nodes@[i] == old(
                g,
            ).nodes@[i] by {
                assert(g.nodes@[i] == before[i]);
            }
        }
        k = k + 1;
    }
    sum
}

/// How many nodes the hinge losses of the first `m` points of `xs` append.
pub open spec fn points_growth<T>(model: MLP, xs: Seq<Vec<T>>, m: int) -> int
    decreases m,
{
    if m <= 0 {
        0
    } else {
        points_growth(model, xs, m - 1) + hinge_growth(model, xs[m - 1]@.len() as int)
    }
}

/// The hinge-loss nodes of the first `m` points, one per point.
pub open spec fn hinge_nodes<T>(model: MLP, xs: Seq<Vec<T>>, m: int, base: int) -> Seq<usize> {
    Seq::new(m as nat, |j: int| (base + points_growth(model, xs, j + 1) - 1) as usize)
}

proof fn lemma_points_growth_mono<T>(model: MLP, xs: Seq<Vec<T>>, i: int, j: int)
    requires
        0 <= i <= j,
    ensures
        0 <= points_growth(model, xs, i) <= points_growth(model, xs, j),
        i < j ==> points_growth(model, xs, i) + hinge_growth(model, xs[i]@.len() as int)
            <= points_growth(model, xs, j),
        i < j ==> hinge_growth(model, xs[i]@.len() as int) >= 7,
    decreases j,
{
    if j > 0 {
        lemma_network_growth_nonneg(model.layer_seq(), xs[j - 1]@.len() as int);
        if i == j {
            lemma_points_growth_mono(model, xs, j - 1, j - 1);
        } else {
            lemma_points_growth_mono(model, xs, i, j - 1);
            lemma_network_growth_nonneg(model.layer_seq(), xs[i]@.len() as int);
        }
    }
}

/// From node `base` up, `nodes` holds the loss graph of `model` over the
/// points `xs` with labels `ys` (paired up to the shorter of the two, `m`
/// points), its total at node `loss`, the last one: the hinge loss of each
/// point (see [`hinge_block`]), the running sums of the hinge losses, a leaf
/// for `1 / xs.len()` and the mean, the squares of the parameters and their
/// running sums, a leaf for `1e-4` and the regulariser, and the total.
pub open spec fn loss_graph<T: Scalar>(
    nodes: Seq<Node<T>>,
    base: int,
    model: MLP,
    xs: Seq<Vec<T>>,
    ys: Seq<T>,
    loss: int,
) -> bool {
    let m = if xs.len() <= ys.len() {
        xs.len() as int
    } else {
        ys.len() as int
    };
    let hs = hinge_nodes(model, xs, m, base);
    let sb = base + points_growth(model, xs, m);
    let rb = sb + m + 1;
    let p = model.params().len() as int;
    &&& forall|j: int|
        0 <= j < m ==> hinge_block(
            nodes,
            base + #[trigger] points_growth(model, xs, j),
            model,
            xs[j]@,
            ys[j],
        )
    &&& sum_chain(nodes, sb, hs)
    &&& nodes[sb + m - 1].op == Op::<T>::Leaf
    &&& exists|one: T, n: T|
        #[trigger] ratio(1i64, 1u64, one) && #[trigger] counted(xs.len() as usize, n) && divided(
            one,
            n,
            nodes[sb + m - 1].data,
        )
    &&& nodes[sb + m].op == Op::<T>::Mul(
        chain_sum_at(sb, hs, m - 1) as usize,
        (sb + m - 1) as usize,
    )
    &&& squares_chain(nodes, rb, model.params())
    &&& nodes[rb + 2 * p - 1].op == Op::<T>::Leaf
    &&& ratio(1i64, 10000u64, nodes[rb + 2 * p - 1].data)
    &&& nodes[rb + 2 * p].op == Op::<T>::Mul(
        (rb + 2 * p - 1) as usize,
        square_sum_at(rb, p - 1) as usize,
    )
    &&& loss == rb + 2 * p + 1
    &&& nodes[loss].op == Op::<T>::Add(
        (sb + m) as usize,
        (rb + 2 * p) as usize,
    )
}

proof fn lemma_loss_graph_kept<T: Scalar>(
    nodes: Seq<Node<T>>,
    later: Seq<Node<T>>,
    base: int,
    model: MLP,
    xs: Seq<Vec<T>>,
    ys: Seq<T>,
    loss: int,
)
    requires
        loss_graph(nodes, base, model, xs, ys, loss),
        0 <= base,
        loss < nodes.len(),
        xs.len() > 0,
        ys.len() > 0,
        model.params().len() > 0,
        agrees_from(nodes, later, base),
    ensures
        loss_graph(later, base, model, xs, ys, loss),
{
    let m = if xs.len() <= ys.len() {
        xs.len() as int
    } else {
        ys.len() as int
    };
    let hs = hinge_nodes(model, xs, m, base);
    let sb = base + points_growth(model, xs, m);
    let rb = sb + m + 1;
    let p = model.params().len() as int;
    lemma_points_growth_mono(model, xs, m, m);
    assert forall|j: int| 0 <= j < m implies hinge_block(
        later,
        base + #[trigger] points_growth(model, xs, j),
        model,
        xs[j]@,
        ys[j],
    ) by {
        lemma_points_growth_mono(model, xs, j, m);
        lemma_hinge_block_kept(
            nodes,
            later,
            base + points_growth(model, xs, j),
            model,
            xs[j]@,
            ys[j],
        );
    }
    lemma_sum_chain_kept(nodes, later, sb, hs);
    lemma_squares_chain_kept(nodes, later, rb, model.params());
    assert(later[sb + m - 1].op == nodes[sb + m - 1].op && later[sb + m - 1].data == nodes[sb + m
        - 1].data);
    assert(later[sb + m].op == nodes[sb + m].op);
    assert(later[rb + 2 * p - 1].op == nodes[rb + 2 * p - 1].op && later[rb + 2 * p - 1].data
        == nodes[rb + 2 * p - 1].data);
    assert(later[rb + 2 * p].op == nodes[rb + 2 * p].op);
    assert(later[loss].op == nodes[loss].op);
}

/// The full-batch loss over the points `xs` with labels `ys` (paired up to
/// the shorter of the two, `m` points): the mean hinge loss
/// `relu(1 - y * score)` over the points plus `1e-4` times the sum of the
/// squared parameters. Returns the index of the loss node and how many
/// points the model scored on the side of their label.
/// The nodes it appends are those of [`loss_graph`].
#[verifier::spinoff_prover]
#[verifier::rlimit(40)]
pub fn build_loss<T: Scalar>(g: &mut Graph<T>, model: &MLP, xs: &[Vec<T>], ys: &[T]) -> (r: (
    usize,
    usize,
))
    requires
        old(g).wf(),
        model.fits(old(g).nodes@.len() as int),
        model.layer_seq().len() > 0,
        model.layer_seq().last().neuron_seq().len() > 0,
        model.params().len() > 0,
        xs@.len() > 0,
        ys@.len() > 0,
    ensures
        final(g).wf(),
        final(g).same_constants(&*old(g)),
        grows(old(g).nodes@, final(g).nodes@),
        r.0 == final(g).nodes@.len() - 1,
        loss_graph(final(g).nodes@, old(g).nodes@.len() as int, *model, xs@, ys@, r.0 as int),
        r.1 <= xs@.len(),
        r.1 <= ys@.len(),
        computed_between(final(g).nodes@, old(g).nodes@.len() as int, final(g).nodes@.len() as int),
        scored_correctly(
            final(g).nodes@,
            old(g).nodes@.len() as int,
            *model,
            xs@,
            ys@,
            if xs@.len() <= ys@.len() {
                xs@.len() as int
            } else {
                ys@.len() as int
            },
            r.1 as int,
        ),
{
    let ghost base = old(g).nodes@.len() as int;
    let n = xs.len();
    let m = if xs.len() <= ys.len() {
        xs.len()
    } else {
        ys.len()
    };
    let mut losses: Vec<usize> = Vec::new();
    let mut correct: usize = 0;
    let ghost mut oks: Seq<bool> = Seq::empty();
    let mut j: usize = 0;
    while j < m
        invariant
            j <= m,
            m <= xs@.len(),
            m <= ys@.len(),
            base == old(g).nodes@.len(),
            g.wf(),
            g.same_constants(&*old(g)),
            extends(old(g).nodes@, g.nodes@, points_growth(*model, xs@, j as int)),
            model.fits(old(g).nodes@.len() as int),
            model.layer_seq().len() > 0,
            model.layer_seq().last().neuron_seq().len() > 0,
            losses@ == hinge_nodes(*model, xs@, j as int, base),
            forall|i: int|
                0 <= i < j ==> hinge_block(
                    g.nodes@,
                    base + #[trigger] points_growth(*model, xs@, i),
                    *model,
                    xs@[i]@,
                    ys@[i],
                ),
            correct <= j,
            computed_between(g.nodes@, base, g.nodes@.len() as int),
            oks.len() == j,
            correct == count_true(oks),
            forall|i: int|
                0 <= i < j ==> sign_agrees(
                    ys@[i],
                    g.nodes@[point_score(*model, xs@, i, base)].data,
                    #[trigger] oks[i],
                ),
        decreases m - j,
    {
        let ghost before = g.nodes@;
        proof {
            lemma_points_growth_mono(*model, xs@, j as int, j as int);
            lemma_network_growth_nonneg(model.layer_seq(), xs@[j as int]@.len() as int);
            model.lemma_fits_larger(base, g.nodes@.len() as int);
        }
        let (hinge, ok) = hinge_point(g, model, xs[j].as_slice(), ys[j]);
        let ghost prev_oks = oks;
        proof {
            lemma_computed_append(before, g.nodes@, base);
            oks = oks.push(ok);
            assert(oks.drop_last() =~= prev_oks);
        }
        if ok {
            correct = correct + 1;
        }
        let ghost prev = losses@;
        losses.push(hinge);
        proof {
            assert(losses@ =~= hinge_nodes(*model, xs@, j + 1, base));
            assert forall|i: int| 0 <= i < j + 1 implies hinge_block(
                g.nodes@,
                base + #[trigger] points_growth(*model, xs@, i),
                *model,
                xs@[i]@,
                ys@[i],
            ) by {
                if i < j {
                    lemma_points_growth_mono(*model, xs@, i, j as int);
                    lemma_grows_agrees(before, g.nodes@, base + points_growth(*model, xs@, i));
                    lemma_hinge_block_kept(
                        before,
                        g.nodes@,
                        base + points_growth(*model, xs@, i),
                        *model,
                        xs@[i]@,
                        ys@[i],
                    );
                }
            }
            assert forall|k: int| 0 <= k < base implies #[trigger] g.nodes@[k] == old(
                g,
            ).nodes@[k] by {
                assert(g.nodes@[k] == before[k]);
            }
            assert forall|i: int| 0 <= i < j + 1 implies sign_agrees(
                ys@[i],
                g.nodes@[point_score(*model, xs@, i, base)].data,
                #[trigger] oks[i],
            ) by {
                if i < j {
                    assert(oks[i] == prev_oks[i]);
                    lemma_point_score_below(*model, xs@, i, j as int, base);
                    assert(g.nodes@[point_score(*model, xs@, i, base)] == before[point_score(
                        *model,
                        xs@,
                        i,
                        base,
                    )]);
                }
            }
        }
        j = j + 1;
    }
    let ghost after_points = g.nodes@;
    proof {
        assert forall|i: int| 0 <= i < losses@.len() implies #[trigger] losses@[i]
            < g.nodes@.len() by {
            lemma_points_growth_mono(*model, xs@, i + 1, m as int);
            lemma_points_growth_mono(*model, xs@, i, i + 1);
            lemma_network_growth_nonneg(model.layer_seq(), xs@[i]@.len() as int);
        }
    }
    let sum = sum_nodes(g, losses.as_slice());
    let ghost after_sum = g.nodes@;
    let one = T::from_ratio(1, 1);
    let count = T::from_count(n);
    let inv = one.div(count);
    let inv_n = g.value(inv);
    let ghost after_inv = g.nodes@;
    let data_loss = g.mul(sum, inv_n);
    let params = model.parameters();
    let ghost before_reg = g.nodes@;
    proof {
        lemma_points_growth_mono(*model, xs@, m as int, m as int);
        lemma_computed_append(after_points, after_sum, base);
        lemma_computed_append(after_sum, after_inv, base);
        lemma_computed_append(after_inv, before_reg, base);
        assert(ratio(1i64, 1u64, one) && counted(xs@.len() as usize, count));
    }
    proof {
        model.lemma_params_fit(old(g).nodes@.len() as int);
        lemma_points_growth_mono(*model, xs@, m as int, m as int);
        assert forall|i: int| 0 <= i < params@.len() implies #[trigger] params@[i]
            < g.nodes@.len() by {
            assert(params@[i] < base);
        }
    }
    let reg_sum = sum_of_squares(g, params.as_slice());
    let ghost after_reg = g.nodes@;
    let alpha = g.value(T::from_ratio(1, 10000));
    let ghost s1 = g.nodes@;
    let reg_loss = g.mul(alpha, reg_sum);
    let ghost s2 = g.nodes@;
    let total = g.add(data_loss, reg_loss);
    proof {
        lemma_computed_append(before_reg, after_reg, base);
        lemma_computed_append(after_reg, s1, base);
        lemma_computed_append(s1, s2, base);
        lemma_computed_append(s2, g.nodes@, base);
        assert(g.nodes@[s1.len() - 1] == s1[s1.len() - 1]);
        assert(before_reg[after_inv.len() - 1] == after_inv[after_inv.len() - 1]);
        assert(after_reg[after_inv.len() - 1] == before_reg[after_inv.len() - 1]);
        assert forall|i: int| 0 <= i < m implies sign_agrees(
            ys@[i],
            g.nodes@[point_score(*model, xs@, i, base)].data,
            #[trigger] oks[i],
        ) by {
            lemma_point_score_below(*model, xs@, i, m as int, base);
            assert(g.nodes@[point_score(*model, xs@, i, base)] == after_points[point_score(
                *model,
                xs@,
                i,
                base,
            )]);
        }
        let rb = before_reg.len() as int;
        let p = params@.len() as int;
        let sb = after_points.len() as int;
        assert forall|k: int| 0 <= k < after_reg.len() implies #[trigger] g.nodes@[k]
            == after_reg[k] by {
            assert(g.nodes@[k] == s2[k]);
            assert(s2[k] == s1[k]);
        }
        assert forall|k: int| 0 <= k < after_sum.len() implies #[trigger] after_reg[k]
            == after_sum[k] by {
            assert(before_reg[k] == after_sum[k]);
        }
        assert forall|k: int| 0 <= k < after_points.len() implies #[trigger] g.nodes@[k]
            == after_points[k] by {
            assert(g.nodes@[k] == after_reg[k]);
            assert(after_reg[k] == after_sum[k]);
        }
        lemma_grows_agrees(after_reg, g.nodes@, rb);
        lemma_squares_chain_kept(after_reg, g.nodes@, rb, params@);
        assert(grows(after_sum, g.nodes@));
        lemma_grows_agrees(after_sum, g.nodes@, sb);
        lemma_sum_chain_kept(after_sum, g.nodes@, sb, losses@);
        assert(g.nodes@[sb + m - 1] == after_reg[sb + m - 1]);
        assert(g.nodes@[sb + m] == after_reg[sb + m]);
        assert(after_reg[sb + m - 1] == before_reg[sb + m - 1]);
        assert(after_reg[sb + m] == before_reg[sb + m]);
        assert forall|i: int| 0 <= i < m implies hinge_block(
            g.nodes@,
            base + #[trigger] points_growth(*model, xs@, i),
            *model,
            xs@[i]@,
            ys@[i],
        ) by {
            lemma_points_growth_mono(*model, xs@, i, m as int);
            lemma_grows_agrees(after_points, g.nodes@, base + points_growth(*model, xs@, i));
            lemma_hinge_block_kept(
                after_points,
                g.nodes@,
                base + points_growth(*model, xs@, i),
                *model,
                xs@[i]@,
                ys@[i],
            );
        }
        assert forall|k: int| 0 <= k < base implies #[trigger] g.nodes@[k] == old(g).nodes@[k] by {
            assert(g.nodes@[k] == after_points[k]);
        }
    }
    (total, correct)
}

} // verus!

verus! {

/// The stride between recorded steps of a run of `total` steps: the least
/// stride that records at most 60 of them, `ceil(total / 60)` (at least 1).
pub open spec fn frame_stride(total: int) -> int {
    if total <= 60 {
        1
    } else {
        (total + 59) / 60
    }
}

/// Whether step `i` of a run of `total` steps is recorded: every
/// `frame_stride(total)`-th step from the first, and the last step.
pub open spec fn frame_kept(i: int, total: int) -> bool {
    i % frame_stride(total) == 0 || i == total - 1
}

/// Whether step `i` of a run of `total` steps is recorded.
pub fn keeps_frame(i: usize, total: usize) -> (keep: bool)
    requires
        total >= 1,
    ensures
        keep == frame_kept(i as int, total as int),
{
    let every = if total <= 60 {
        1
    } else {
        total / 60 + if total % 60 == 0 {
            0
        } else {
            1
        }
    };
    proof {
        if total > 60 {
            assert(every == (total + 59) / 60) by (nonlinear_arith)
                requires
                    total > 60,
                    every == total / 60 + if total % 60 == 0 {
                        0int
                    } else {
                        1int
                    },
            ;
        }
    }
    i % every == 0 || i == total - 1
}

/// A recording always holds the first step and the last.
pub proof fn lemma_first_and_last_kept(total: int)
    requires
        total >= 1,
    ensures
        frame_kept(0, total),
        frame_kept(total - 1, total),
{
    lemma_frame_stride_positive(total);
    assert(0int % frame_stride(total) == 0);
}

proof fn lemma_frame_stride_positive(total: int)
    requires
        total >= 1,
    ensures
        frame_stride(total) >= 1,
        60 * frame_stride(total) >= total,
{
    if total > 60 {
        assert(60 * ((total + 59) / 60) >= total) by (nonlinear_arith)
            requires
                total > 60,
        ;
        assert((total + 59) / 60 >= 1) by (nonlinear_arith)
            requires
                total > 60,
        ;
    }
}

/// A recording holds at most about 60 frames whatever the number of steps:
/// a recorded step other than the last is the `q`-th multiple of the stride
/// for some `q` below 60, so there are at most 60 of those, plus the last.
pub proof fn lemma_at_most_sixty_frames(i: int, total: int)
    requires
        total >= 1,
        0 <= i < total - 1,
        frame_kept(i, total),
    ensures
        i % frame_stride(total) == 0,
        i / frame_stride(total) < 60,
{
    lemma_frame_stride_positive(total);
    let d = frame_stride(total);
    assert(i / d < 60) by (nonlinear_arith)
        requires
            d >= 1,
            60 * d >= total,
            0 <= i < total,
    ;
}

/// `lr` is the learning rate of step `k` of a run of `steps` steps that
/// starts from `lr0`: `lr0 * (1 - 0.9 * k / steps)`, as the scalar computes it.
/// It decays from `lr0` at the first step towards `0.1 * lr0`.
pub open spec fn decayed_rate<T: Scalar>(lr0: T, k: usize, steps: usize, lr: T) -> bool {
    exists|nine_tenths: T, kk: T, scaled: T, n: T, decay: T, one: T, factor: T|
        #![trigger ratio(9i64, 10u64, nine_tenths), counted(k, kk), counted(steps, n), ratio(1i64, 1u64, one), multiplied(nine_tenths, kk, scaled), divided(scaled, n, decay), subtracted(one, decay, factor)]
        ratio(9i64, 10u64, nine_tenths) && counted(k, kk) && multiplied(nine_tenths, kk, scaled)
            && counted(steps, n) && divided(scaled, n, decay) && ratio(1i64, 1u64, one)
            && subtracted(one, decay, factor) && multiplied(lr0, factor, lr)
}

/// The learning rate of step `k` falls linearly with `k` and with nothing
/// else: it is `lr0 * (1 - d)` where `d` is nine tenths of the scalar's count
/// of `k` itself, divided by the scalar's count of `steps` itself.
pub proof fn lemma_learning_rate_linear_in_step<T: Scalar>(lr0: T, k: usize, steps: usize, lr: T)
    requires
        decayed_rate(lr0, k, steps, lr),
    ensures
        exists|kk: T, n: T, nine_tenths: T, scaled: T, d: T, one: T, factor: T|
            #![trigger counted(k, kk), counted(steps, n), multiplied(nine_tenths, kk, scaled), divided(scaled, n, d), subtracted(one, d, factor)]
            counted(k, kk) && counted(steps, n) && ratio(9i64, 10u64, nine_tenths) && multiplied(
                nine_tenths,
                kk,
                scaled,
            ) && divided(scaled, n, d) && ratio(1i64, 1u64, one) && subtracted(one, d, factor)
                && multiplied(lr0, factor, lr),
{
}

/// The learning rate of step `k` of a run of `steps` steps that starts from
/// `lr0`: `lr0 * (1 - 0.9 * k / steps)`.
fn decayed_learning_rate<T: Scalar>(lr0: T, k: usize, steps: usize) -> (lr: T)
    ensures
        decayed_rate(lr0, k, steps, lr),
{
    let nine_tenths = T::from_ratio(9, 10);
    let kk = T::from_count(k);
    let scaled = nine_tenths.mul(kk);
    let n = T::from_count(steps);
    let decay = scaled.div(n);
    let one = T::from_ratio(1, 1);
    let factor = one.sub(decay);
    let lr = lr0.mul(factor);
    assert(ratio(9i64, 10u64, nine_tenths) && counted(k, kk) && multiplied(nine_tenths, kk, scaled)
        && counted(steps, n) && divided(scaled, n, decay) && ratio(1i64, 1u64, one)
        && subtracted(one, decay, factor) && multiplied(lr0, factor, lr));
    lr
}

/// With a functional scalar, classifying an input is repeatable: two arenas
/// that hold the same parameters below `w`, the leaves of the same input
/// `x` above them, and the model's forward pass over those leaves (as
/// [`Session::classify`] leaves its arena) agree on the data of every node,
/// the score among them.
pub proof fn lemma_classify_functional<T: Scalar>(
    model: MLP,
    a: Seq<Node<T>>,
    b: Seq<Node<T>>,
    w: int,
    x: Seq<T>,
)
    requires
        crate::engine::functional::<T>(),
        topo_ordered(a),
        0 <= w,
        a.take(w) == b.take(w),
        leaves_hold(a, w, x),
        leaves_hold(b, w, x),
        network_appended(model.layer_seq(), a, index_range(w, x.len() as int), w + x.len()),
        network_appended(model.layer_seq(), b, index_range(w, x.len() as int), w + x.len()),
        computed_between(a, w, a.len() as int),
        computed_between(b, w, b.len() as int),
        a.len() == w + x.len() + network_growth(model.layer_seq(), x.len() as int),
        b.len() == a.len(),
    ensures
        forall|i: int| 0 <= i < a.len() ==> #[trigger] a[i].data == b[i].data,
{
    let xl = x.len() as int;
    let base = w + xl;
    let ls = model.layer_seq();
    lemma_network_growth_nonneg(ls, xl);
    assert forall|i: int| 0 <= i < base implies #[trigger] a[i].data == b[i].data by {
        if i < w {
            assert(a.take(w)[i] == a[i]);
            assert(b.take(w)[i] == b[i]);
            assert(a.take(w)[i] == b.take(w)[i]);
        } else {
            assert(a[i].data == x[i - w]);
            assert(b[i].data == x[i - w]);
        }
    }
    assert(computed_between(a, base, a.len() as int));
    assert(computed_between(b, base, a.len() as int));
    crate::nn::lemma_forward_functional(ls, a, b, index_range(w, xl), base);
}

/// What one training step reports.
pub struct StepReport<T> {
    /// The index of the step, counting from zero.
    pub step: usize,
    /// The loss before the update.
    pub loss: T,
    /// How many points the model scored on the side of their label, before
    /// the update.
    pub correct: usize,
}

/// A live training run over a fixed dataset: build it, then call
/// [`step`](Session::step) until it returns `None`. The model can
/// [`classify`](Session::classify) new inputs at any point.
pub struct Session<T> {
    g: Graph<T>,
    model: MLP,
    xs: Vec<Vec<T>>,
    ys: Vec<T>,
    watermark: usize,
    /// Input feature dimension.
    pub dim: usize,
    layers: Vec<usize>,
    k: usize,
    steps: usize,
    lr0: T,
}

impl<T: Scalar> Session<T> {
    /// The graph holds the model's parameters at its bottom, and the model is
    /// one that a loss can be built over.
    pub closed spec fn inv(&self) -> bool {
        &&& self.g.wf()
        &&& self.model.fits(self.watermark as int)
        &&& self.watermark <= self.g.nodes@.len()
        &&& self.model.layer_seq().len() > 0
        &&& self.model.layer_seq().last().neuron_seq().len() > 0
        &&& self.model.params().len() > 0
        &&& self.k <= self.steps
        &&& self.params_at_bottom()
        &&& self.exact_constants()
    }

    /// The parameters are the leaves at the bottom of the arena, below
    /// `param_end`, in order.
    pub open spec fn params_at_bottom(&self) -> bool {
        &&& self.network().params() == index_range(0, self.param_end() as int)
        &&& self.param_end() <= self.arena().nodes@.len()
        &&& forall|i: int|
            0 <= i < self.param_end() ==> #[trigger] self.arena().nodes@[i].op == Op::<T>::Leaf
    }

    /// The arena's zero and one are the scalar's 0 and 1.
    pub open spec fn exact_constants(&self) -> bool {
        &&& ratio(0i64, 1u64, self.arena().zero)
        &&& ratio(1i64, 1u64, self.arena().one)
    }

    /// The learning rate of the first step.
    pub closed spec fn learning_rate(&self) -> T {
        self.lr0
    }

    /// The input feature dimension.
    pub closed spec fn input_dim(&self) -> usize {
        self.dim
    }

    /// The number of nodes at the bottom of the arena that hold the parameters.
    pub closed spec fn param_end(&self) -> nat {
        self.watermark as nat
    }

    /// The arena.
    pub closed spec fn arena(&self) -> Graph<T> {
        self.g
    }

    /// The model.
    pub closed spec fn network(&self) -> MLP {
        self.model
    }

    /// The feature vectors.
    pub closed spec fn sample_seq(&self) -> Seq<Vec<T>> {
        self.xs@
    }

    /// The labels.
    pub closed spec fn label_seq(&self) -> Seq<T> {
        self.ys@
    }

    /// How many steps have been taken.
    pub closed spec fn step_index(&self) -> nat {
        self.k as nat
    }

    /// How many steps the run takes in all.
    pub closed spec fn total_steps(&self) -> nat {
        self.steps as nat
    }

    /// The width of every layer, the inputs first.
    pub closed spec fn layer_widths(&self) -> Seq<usize> {
        self.layers@
    }

    /// There is at least one point and one label to train on.
    pub closed spec fn has_samples(&self) -> bool {
        self.xs@.len() > 0 && self.ys@.len() > 0
    }

    /// How many labelled points there are.
    pub closed spec fn sample_count(&self) -> nat {
        if self.xs@.len() <= self.ys@.len() {
            self.xs@.len()
        } else {
            self.ys@.len()
        }
    }

    /// `xs[i]` is a feature vector and `ys[i]` its label, positive or
    /// negative. The network has the hidden layers `hidden` and one linear
    /// output neuron; its input width is the length of the first feature
    /// vector (2 when there is none). At least one step is taken.
    pub fn new<I: WeightInit<T>>(
        xs: Vec<Vec<T>>,
        ys: Vec<T>,
        hidden: &[usize],
        steps: usize,
        lr0: T,
        init: &mut I,
    ) -> (s: Session<T>)
        ensures
            s.inv(),
            s.input_dim() == if xs@.len() > 0 {
                xs@[0]@.len()
            } else {
                2
            },
            s.layer_widths() == seq![s.input_dim()] + hidden@ + seq![1usize],
            s.total_steps() == if steps >= 1 {
                steps as nat
            } else {
                1
            },
            s.step_index() == 0,
            s.has_samples() <==> xs@.len() > 0 && ys@.len() > 0,
            s.network().params() == index_range(0, s.param_end() as int),
            s.arena().nodes@.len() == s.param_end(),
            s.sample_count() == if xs@.len() <= ys@.len() {
                xs@.len()
            } else {
                ys@.len()
            },
            s.network().shaped(s.input_dim() as int, hidden@ + seq![1usize]),
            forall|l: int|
                0 <= l < s.network().layer_seq().len() ==> layer_he_weights(
                    #[trigger] s.network().layer_seq()[l],
                    s.arena().nodes@,
                    fan_in(s.input_dim() as int, hidden@ + seq![1usize], l) as usize,
                ),
            forall|l: int|
                0 <= l < s.network().layer_seq().len() ==> layer_weights_from::<T, I>(
                    #[trigger] s.network().layer_seq()[l],
                    s.arena().nodes@,
                ),
            s.sample_seq() == xs@,
            s.label_seq() == ys@,
            s.learning_rate() == lr0,
            s.params_at_bottom(),
            s.exact_constants(),
    {
        let dim = if xs.len() > 0 {
            xs[0].len()
        } else {
            2
        };
        let mut nouts = vstd::slice::slice_to_vec(hidden);
        nouts.push(1);
        let mut g: Graph<T> = Graph::new();
        let model = MLP::new(&mut g, init, dim, nouts.as_slice());
        let watermark = g.nodes.len();
        let mut layers: Vec<usize> = Vec::new();
        layers.push(dim);
        let mut i: usize = 0;
        while i < nouts.len()
            invariant
                i <= nouts@.len(),
                layers@ == seq![dim] + nouts@.take(i as int),
            decreases nouts@.len() - i,
        {
            layers.push(nouts[i]);
            i = i + 1;
            assert(layers@ =~= seq![dim] + nouts@.take(i as int));
        }
        assert(nouts@.take(i as int) =~= nouts@);
        assert(layers@ =~= seq![dim] + hidden@ + seq![1usize]);
        assert(nouts@ =~= hidden@ + seq![1usize]);
        proof {
            let last = model.layer_seq().last();
            assert(last.shaped(
                crate::nn::fan_in(dim as int, nouts@, nouts@.len() - 1),
                1,
                false,
            ));
            crate::nn::lemma_layer_params_nonempty(model.layer_seq());
        }
        let steps = if steps < 1 {
            1
        } else {
            steps
        };
        Session { g, model, xs, ys, watermark, dim, layers, k: 0, steps, lr0 }
    }

    /// How many steps have been taken.
    pub fn steps_taken(&self) -> (n: usize)
        ensures
            n == self.step_index(),
    {
        self.k
    }

    /// The input feature dimension.
    pub fn dim(&self) -> (d: usize)
        ensures
            d == self.input_dim(),
    {
        self.dim
    }

    /// How many steps the run takes in all.
    pub fn steps(&self) -> (n: usize)
        ensures
            n == self.total_steps(),
    {
        self.steps
    }

    /// The width of every layer, the inputs first.
    pub fn layers(&self) -> (ls: &[usize])
        ensures
            ls@ == self.layer_widths(),
    {
        self.layers.as_slice()
    }

    /// `{"layers":[..],"steps":N}`: enough for a viewer to lay the network
    /// out before the first frame arrives.
    pub fn layout_json(&self) -> (s: String)
        ensures
            s@ == "{\"layers\":["@ + decimal_list(self.layer_widths()) + "],\"steps\":"@ + decimal(
                self.total_steps(),
            ) + "}"@,
    {
        layout_json(self.layers.as_slice(), self.steps)
    }

    /// Advance one training step: rebuild the loss above the parameters,
    /// differentiate it, and move every parameter against its gradient with
    /// the learning rate `lr0 * (1 - 0.9 * k / steps)` for step `k`. Returns
    /// what the step measured, or `None` once every step has been taken.
    #[verifier::spinoff_prover]
    #[verifier::rlimit(80)]
    pub fn step(&mut self) -> (r: Option<StepReport<T>>)
        requires
            old(self).inv(),
            old(self).has_samples(),
        ensures
            final(self).inv(),
            final(self).has_samples(),
            final(self).input_dim() == old(self).input_dim(),
            final(self).layer_widths() == old(self).layer_widths(),
            final(self).total_steps() == old(self).total_steps(),
            final(self).sample_count() == old(self).sample_count(),
            old(self).step_index() >= old(self).total_steps() ==> r is None
                && final(self).step_index() == old(self).step_index(),
            old(self).step_index() < old(self).total_steps() ==> (r matches Some(rep) && rep.step
                == old(self).step_index() && rep.correct <= old(self).sample_count()
                && final(self).step_index() == old(self).step_index() + 1),
            final(self).network() == old(self).network(),
            final(self).param_end() == old(self).param_end(),
            final(self).sample_seq() == old(self).sample_seq(),
            final(self).label_seq() == old(self).label_seq(),
            final(self).learning_rate() == old(self).learning_rate(),
            final(self).params_at_bottom(),
            final(self).exact_constants(),
            r is None ==> *final(self) == *old(self),
            r matches Some(rep) ==> exists|built: Seq<Node<T>>, differentiated: Seq<Node<T>>, lr: T|
                {
                    &&& built.take(old(self).param_end() as int) == old(self).arena().nodes@.take(
                        old(self).param_end() as int,
                    )
                    &&& loss_graph(
                        built,
                        old(self).param_end() as int,
                        old(self).network(),
                        old(self).sample_seq(),
                        old(self).label_seq(),
                        built.len() - 1,
                    )
                    &&& computed_between(built, old(self).param_end() as int, built.len() as int)
                    &&& scored_correctly(
                        built,
                        old(self).param_end() as int,
                        old(self).network(),
                        old(self).sample_seq(),
                        old(self).label_seq(),
                        old(self).sample_count() as int,
                        rep.correct as int,
                    )
                    &&& rep.loss == built[built.len() - 1].data
                    &&& #[trigger] replayed(
                        reset(built, built.len() - 1, old(self).arena().zero, old(self).arena().one),
                        differentiated,
                        backward_schedule(built),
                        old(self).arena().one,
                        old(self).arena().zero,
                    )
                    &&& decayed_rate(
                        old(self).learning_rate(),
                        old(self).step_index() as usize,
                        old(self).total_steps() as usize,
                        lr,
                    )
                    &&& #[trigger] descended(
                        differentiated,
                        final(self).arena().nodes@,
                        old(self).network().params(),
                        lr,
                    )
                },
            r matches Some(rep) ==> {
                let nodes = final(self).arena().nodes@;
                &&& loss_graph(
                    nodes,
                    final(self).param_end() as int,
                    final(self).network(),
                    final(self).sample_seq(),
                    final(self).label_seq(),
                    nodes.len() - 1,
                )
                &&& rep.loss == nodes[nodes.len() - 1].data
            },
    {
        if self.k >= self.steps {
            return None;
        }
        let k = self.k;
        self.g.truncate(self.watermark);
        let ghost truncated = self.g.nodes@;
        proof {
            self.model.lemma_fits_larger(self.watermark as int, self.g.nodes@.len() as int);
        }
        let (loss, correct) = build_loss(
            &mut self.g,
            &self.model,
            self.xs.as_slice(),
            self.ys.as_slice(),
        );
        let ghost built = self.g.nodes@;
        self.g.backward(loss);
        let loss_val = self.g.nodes[loss].data;
        let ghost differentiated = self.g.nodes@;
        let lr = decayed_learning_rate(self.lr0, k, self.steps);
        let params = self.model.parameters();
        proof {
            self.model.lemma_params_fit(self.watermark as int);
        }
        descend(&mut self.g, params.as_slice(), lr, Ghost(self.watermark as int));
        proof {
            let w = self.watermark as int;
            assert(agrees_from(built, self.g.nodes@, w)) by {
                assert forall|i: int| w <= i < built.len() implies (
                #[trigger] self.g.nodes@[i]).op == built[i].op && self.g.nodes@[i].data
                    == built[i].data by {
                    assert(differentiated[i].op == built[i].op);
                    assert(differentiated[i].data == built[i].data);
                    assert(self.g.nodes@[i].op == differentiated[i].op);
                    assert(self.g.nodes@[i].data == differentiated[i].data);
                }
            }
            lemma_loss_graph_kept(
                built,
                self.g.nodes@,
                w,
                self.model,
                self.xs@,
                self.ys@,
                loss as int,
            );
            lemma_points_growth_mono(self.model, self.xs@, 0, self.xs@.len() as int);
            let m = if self.xs@.len() <= self.ys@.len() {
                self.xs@.len() as int
            } else {
                self.ys@.len() as int
            };
            lemma_points_growth_mono(self.model, self.xs@, m, m);
            assert(loss >= w);
            assert(self.g.nodes@[loss as int].data == built[loss as int].data);
            assert(built.take(w) =~= old(self).g.nodes@.take(w)) by {
                assert forall|i: int| 0 <= i < w implies #[trigger] built[i] == old(self).g.nodes@[i] by {
                    assert(built[i] == truncated[i]);
                }
            }
            assert forall|i: int| 0 <= i < w implies #[trigger] self.g.nodes@[i].op == Op::<T>::Leaf by {
                assert(built[i] == truncated[i]);
                assert(old(self).g.nodes@[i].op == Op::<T>::Leaf);
                assert(i < built.len());
                assert(differentiated[i].data == built[i].data);
                assert(differentiated[i].op == built[i].op);
                assert(self.g.nodes@[i].op == differentiated[i].op);
            }
            assert(params@ == self.model.params());
            assert(loss == built.len() - 1);
            assert(descended(differentiated, self.g.nodes@, old(self).model.params(), lr));
        }
        self.k = self.k + 1;
        Some(StepReport { step: k, loss: loss_val, correct })
    }

    /// Forward one feature vector through the model; a positive score is the
    /// positive class.
    pub fn classify(&mut self, x: &[T]) -> (score: T)
        requires
            old(self).inv(),
        ensures
            final(self).inv(),
            final(self).has_samples() == old(self).has_samples(),
            final(self).input_dim() == old(self).input_dim(),
            final(self).layer_widths() == old(self).layer_widths(),
            final(self).total_steps() == old(self).total_steps(),
            final(self).step_index() == old(self).step_index(),
            final(self).sample_count() == old(self).sample_count(),
            final(self).network() == old(self).network(),
            final(self).param_end() == old(self).param_end(),
            final(self).sample_seq() == old(self).sample_seq(),
            final(self).label_seq() == old(self).label_seq(),
            final(self).learning_rate() == old(self).learning_rate(),
            final(self).params_at_bottom(),
            final(self).exact_constants(),
            final(self).arena().nodes@.take(final(self).param_end() as int) == old(
                self,
            ).arena().nodes@.take(old(self).param_end() as int),
            leaves_hold(final(self).arena().nodes@, final(self).param_end() as int, x@),
            network_appended(
                final(self).network().layer_seq(),
                final(self).arena().nodes@,
                index_range(final(self).param_end() as int, x@.len() as int),
                (final(self).param_end() + x@.len()) as int,
            ),
            final(self).arena().nodes@.len() == final(self).param_end() + x@.len() + network_growth(
                final(self).network().layer_seq(),
                x@.len() as int,
            ),
            computed_between(
                final(self).arena().nodes@,
                final(self).param_end() as int,
                final(self).arena().nodes@.len() as int,
            ),
            score == final(self).arena().nodes@[network_outputs(
                final(self).network().layer_seq(),
                index_range(final(self).param_end() as int, x@.len() as int),
                (final(self).param_end() + x@.len()) as int,
            )[0] as int].data,
    {
        self.g.truncate(self.watermark);
        let ghost params = self.g.nodes@;
        let leaves = push_leaves(&mut self.g, x);
        proof {
            self.model.lemma_fits_larger(self.watermark as int, self.g.nodes@.len() as int);
        }
        let ghost with_leaves = self.g.nodes@;
        let out = self.model.forward(&mut self.g, leaves.as_slice());
        proof {
            lemma_computed_append(with_leaves, self.g.nodes@, self.watermark as int);
            assert(self.g.nodes@.take(self.watermark as int) =~= params);
            assert forall|i: int| self.watermark <= i < self.watermark + x@.len() implies (
            #[trigger] self.g.nodes@[i]).op == Op::<T>::Leaf && self.g.nodes@[i].data == x@[i
                - self.watermark] by {
                assert(self.g.nodes@[i] == with_leaves[i]);
            }
        }
        let score = out[0];
        self.g.nodes[score].data
    }

    /// Forward one feature vector through the model and return every layer's
    /// outputs: `acts[l][n]` is the node of neuron `n` of layer `l`.
    pub fn activations(&mut self, x: &[T]) -> (acts: Vec<Vec<usize>>)
        requires
            old(self).inv(),
        ensures
            final(self).inv(),
            final(self).has_samples() == old(self).has_samples(),
            final(self).input_dim() == old(self).input_dim(),
            final(self).layer_widths() == old(self).layer_widths(),
            final(self).total_steps() == old(self).total_steps(),
            final(self).step_index() == old(self).step_index(),
            final(self).sample_count() == old(self).sample_count(),
            final(self).network() == old(self).network(),
            final(self).param_end() == old(self).param_end(),
            final(self).sample_seq() == old(self).sample_seq(),
            final(self).label_seq() == old(self).label_seq(),
            final(self).learning_rate() == old(self).learning_rate(),
            final(self).params_at_bottom(),
            final(self).exact_constants(),
            final(self).arena().nodes@.take(final(self).param_end() as int) == old(
                self,
            ).arena().nodes@.take(old(self).param_end() as int),
            leaves_hold(final(self).arena().nodes@, final(self).param_end() as int, x@),
            network_appended(
                final(self).network().layer_seq(),
                final(self).arena().nodes@,
                index_range(final(self).param_end() as int, x@.len() as int),
                (final(self).param_end() + x@.len()) as int,
            ),
            final(self).arena().nodes@.len() == final(self).param_end() + x@.len() + network_growth(
                final(self).network().layer_seq(),
                x@.len() as int,
            ),
            computed_between(
                final(self).arena().nodes@,
                final(self).param_end() as int,
                final(self).arena().nodes@.len() as int,
            ),
            acts@.len() == final(self).network().layer_seq().len(),
            forall|l: int|
                0 <= l < acts@.len() ==> (#[trigger] acts@[l])@ == network_outputs(
                    final(self).network().layer_seq().take(l + 1),
                    index_range(final(self).param_end() as int, x@.len() as int),
                    (final(self).param_end() + x@.len()) as int,
                ),
            forall|l: int|
                0 <= l < acts@.len() ==> (#[trigger] acts@[l])@.len()
                    == final(self).network().layer_seq()[l].neuron_seq().len() && all_below(
                    acts@[l]@,
                    final(self).arena().nodes@.len() as int,
                ),
    {
        self.g.truncate(self.watermark);
        let ghost params = self.g.nodes@;
        let leaves = push_leaves(&mut self.g, x);
        proof {
            self.model.lemma_fits_larger(self.watermark as int, self.g.nodes@.len() as int);
        }
        let ghost with_leaves = self.g.nodes@;
        let acts = self.model.forward_verbose(&mut self.g, leaves.as_slice());
        proof {
            lemma_computed_append(with_leaves, self.g.nodes@, self.watermark as int);
            assert(self.g.nodes@.take(self.watermark as int) =~= params);
            assert forall|i: int| self.watermark <= i < self.watermark + x@.len() implies (
            #[trigger] self.g.nodes@[i]).op == Op::<T>::Leaf && self.g.nodes@[i].data == x@[i
                - self.watermark] by {
                assert(self.g.nodes@[i] == with_leaves[i]);
            }
        }
        acts
    }

    /// The arena: the parameters at the bottom, then whatever the last step,
    /// classification or forward pass left above them.
    pub fn graph(&self) -> (g: &Graph<T>)
        ensures
            g == self.arena(),
    {
        &self.g
    }

    /// The model being trained.
    pub fn model(&self) -> (m: &MLP)
        ensures
            m == self.network(),
    {
        &self.model
    }

    /// The feature vectors being trained on.
    pub fn samples(&self) -> (xs: &[Vec<T>])
        ensures
            xs@ == self.sample_seq(),
    {
        self.xs.as_slice()
    }
}

} // verus!
