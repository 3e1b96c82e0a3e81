//! What holds of every backward pass.

use vstd::prelude::*;
use crate::backward::{
    backward_code, cleared, gradients, lemma_backward, lemma_cleared_len, lemma_swept_len, swept,
};
use crate::order::{
    earlier, lemma_reaches_below, lemma_topological_order, operands_first, reaches, topological_order, walk,
};
use crate::scalar::{Arith, Prim, ONE, ZERO};
use crate::tape::{run, Regs};
use crate::value::{acyclic, InnerValue, Operation};

verus! {

/// Whether `left` and `right` hold the same scalar for every entry of `support`.
pub open spec fn agree(support: Seq<usize>, left: Seq<u64>, right: Seq<u64>) -> bool {
    forall|x: usize| #[trigger] support.contains(x) ==> left[x as int] == right[x as int]
}

/// A node that hands its gradient on changes the gradients of its operands only.
pub proof fn lemma_propagate_outside(
    arith: Arith,
    node: InnerValue,
    out: usize,
    data: Seq<u64>,
    grad: Seq<u64>,
    x: usize,
)
    requires
        x < grad.len(),
        forall|k: int| 0 <= k < node.operands().len() ==> (#[trigger] node.operands()[k]) < grad.len(),
        forall|k: int| 0 <= k < node.operands().len() ==> (#[trigger] node.operands()[k]) != x,
    ensures
        node.propagate(arith, out, data, grad)[x as int] == grad[x as int],
{
    match node.op {
        None => {},
        Some(Operation::Add(a, b)) => {
            assert(node.operands()[0] == a && node.operands()[1] == b);
        },
        Some(Operation::Mul(a, b)) => {
            assert(node.operands()[0] == a && node.operands()[1] == b);
        },
        Some(Operation::Tanh(a)) => {
            assert(node.operands()[0] == a);
        },
        Some(Operation::Exp(a)) => {
            assert(node.operands()[0] == a);
        },
        Some(Operation::Pow(a, n)) => {
            assert(node.operands()[0] == a);
        },
    }
}

/// What a node hands on depends only on the values and gradients of the node and its operands.
pub proof fn lemma_propagate_agrees(
    arith: Arith,
    node: InnerValue,
    out: usize,
    support: Seq<usize>,
    data1: Seq<u64>,
    grad1: Seq<u64>,
    data2: Seq<u64>,
    grad2: Seq<u64>,
)
    requires
        support.contains(out),
        forall|k: int| 0 <= k < node.operands().len() ==> support.contains(#[trigger] node.operands()[k]),
        forall|x: usize| #[trigger] support.contains(x) ==> x < grad1.len() && x < grad2.len(),
        agree(support, data1, data2),
        agree(support, grad1, grad2),
    ensures
        agree(support, node.propagate(arith, out, data1, grad1), node.propagate(arith, out, data2, grad2)),
{
    match node.op {
        None => {},
        Some(Operation::Add(a, b)) => {
            assert(node.operands()[0] == a && node.operands()[1] == b);
        },
        Some(Operation::Mul(a, b)) => {
            assert(node.operands()[0] == a && node.operands()[1] == b);
        },
        Some(Operation::Tanh(a)) => {
            assert(node.operands()[0] == a);
        },
        Some(Operation::Exp(a)) => {
            assert(node.operands()[0] == a);
        },
        Some(Operation::Pow(a, n)) => {
            assert(node.operands()[0] == a);
        },
    }
}

/// Clearing stores zero for every entry of `order` and changes nothing else.
pub proof fn lemma_cleared_at(grad: Seq<u64>, order: Seq<usize>, x: usize)
    requires
        x < grad.len(),
        forall|j: int| 0 <= j < order.len() ==> (#[trigger] order[j]) < grad.len(),
    ensures
        cleared(grad, order)[x as int] == if order.contains(x) { ZERO } else { grad[x as int] },
    decreases order.len(),
{
    if order.len() > 0 {
        let head = order.drop_last();
        assert forall|j: int| 0 <= j < head.len() implies (#[trigger] head[j]) < grad.len() by {
            assert(head[j] == order[j]);
        }
        lemma_cleared_at(grad, head, x);
        lemma_cleared_len(grad, head);
        if order.last() == x {
            assert(order[order.len() - 1] == x);
        } else {
            if order.contains(x) {
                let j = choose|j: int| 0 <= j < order.len() && order[j] == x;
                assert(head[j] == x);
            }
            if head.contains(x) {
                let j = choose|j: int| 0 <= j < head.len() && head[j] == x;
                assert(order[j] == x);
            }
        }
    }
}

/// Between two positions of a sweep, the gradient of a node stays as it is if the node is an
/// operand of none of the entries in between.
pub proof fn lemma_swept_spares(
    arith: Arith,
    nodes: Seq<InnerValue>,
    order: Seq<usize>,
    k: nat,
    upto: nat,
    data: Seq<u64>,
    grad: Seq<u64>,
    x: usize,
)
    requires
        acyclic(nodes),
        nodes.len() <= grad.len(),
        forall|j: int| 0 <= j < order.len() ==> (#[trigger] order[j]) < nodes.len(),
        x < grad.len(),
        k <= upto <= order.len(),
        forall|j: int, i: int|
            k <= j < upto && 0 <= i < nodes[order[j] as int].operands().len() ==> (
            #[trigger] nodes[order[j] as int].operands()[i]) != x,
    ensures
        swept(arith, nodes, order, k, data, grad)[x as int] == swept(
            arith,
            nodes,
            order,
            upto,
            data,
            grad,
        )[x as int],
    decreases upto - k,
{
    if k < upto {
        let y = order[k as int];
        let before = swept(arith, nodes, order, k + 1, data, grad);
        lemma_swept_spares(arith, nodes, order, k + 1, upto, data, grad, x);
        lemma_swept_len(arith, nodes, order, k + 1, data, grad);
        lemma_propagate_outside(arith, nodes[y as int], y, data, before, x);
    }
}

/// A sweep changes the gradients of the entries of its order only.
pub proof fn lemma_swept_outside(
    arith: Arith,
    nodes: Seq<InnerValue>,
    order: Seq<usize>,
    k: nat,
    data: Seq<u64>,
    grad: Seq<u64>,
    x: usize,
)
    requires
        acyclic(nodes),
        nodes.len() <= grad.len(),
        operands_first(nodes, order),
        x < grad.len(),
        !order.contains(x),
    ensures
        swept(arith, nodes, order, k, data, grad)[x as int] == grad[x as int],
{
    assert forall|j: int, i: int|
        0 <= j < order.len() && 0 <= i < nodes[order[j] as int].operands().len() implies (
    #[trigger] nodes[order[j] as int].operands()[i]) != x by {
        assert(earlier(order, nodes[order[j] as int].operands()[i], j));
    }
    if k <= order.len() {
        lemma_swept_spares(arith, nodes, order, k, order.len(), data, grad, x);
    }
}

/// What a sweep leaves for the entries of its order depends only on their values and
/// gradients.
pub proof fn lemma_swept_agrees(
    arith: Arith,
    nodes: Seq<InnerValue>,
    order: Seq<usize>,
    k: nat,
    data1: Seq<u64>,
    grad1: Seq<u64>,
    data2: Seq<u64>,
    grad2: Seq<u64>,
)
    requires
        acyclic(nodes),
        nodes.len() <= grad1.len(),
        nodes.len() <= grad2.len(),
        operands_first(nodes, order),
        agree(order, data1, data2),
        agree(order, grad1, grad2),
    ensures
        agree(
            order,
            swept(arith, nodes, order, k, data1, grad1),
            swept(arith, nodes, order, k, data2, grad2),
        ),
    decreases order.len() - k,
{
    if k < order.len() {
        let y = order[k as int];
        lemma_swept_agrees(arith, nodes, order, k + 1, data1, grad1, data2, grad2);
        lemma_swept_len(arith, nodes, order, k + 1, data1, grad1);
        lemma_swept_len(arith, nodes, order, k + 1, data2, grad2);
        assert forall|i: int| 0 <= i < nodes[y as int].operands().len() implies order.contains(
            #[trigger] nodes[y as int].operands()[i],
        ) by {
            assert(earlier(order, nodes[y as int].operands()[i], k as int));
        }
        assert(order.contains(y));
        assert forall|x: usize| #[trigger] order.contains(x) implies x < grad1.len() && x < grad2.len() by {
            let j = choose|j: int| 0 <= j < order.len() && order[j] == x;
            assert(order[j] < nodes.len());
        }
        lemma_propagate_agrees(
            arith,
            nodes[y as int],
            y,
            order,
            data1,
            swept(arith, nodes, order, k + 1, data1, grad1),
            data2,
            swept(arith, nodes, order, k + 1, data2, grad2),
        );
    }
}

/// A backward pass keeps the number of gradients, and the gradient of every node that the root
/// does not depend on.
pub proof fn lemma_gradients_elsewhere(
    arith: Arith,
    nodes: Seq<InnerValue>,
    root: usize,
    data: Seq<u64>,
    grad: Seq<u64>,
)
    requires
        acyclic(nodes),
        root < nodes.len(),
        nodes.len() <= grad.len(),
    ensures
        gradients(arith, nodes, root, data, grad).len() == grad.len(),
        forall|x: usize|
            x < grad.len() && !reaches(nodes, root, x) ==> gradients(arith, nodes, root, data, grad)[x as int]
                == grad[x as int],
{
    let order = topological_order(nodes, root);
    lemma_topological_order(nodes, root);
    lemma_cleared_len(grad, order);
    let start = cleared(grad, order).update(root as int, ONE);
    lemma_swept_len(arith, nodes, order, 0, data, start);
    assert forall|x: usize| x < grad.len() && !reaches(nodes, root, x) implies gradients(
        arith,
        nodes,
        root,
        data,
        grad,
    )[x as int] == grad[x as int] by {
        lemma_swept_outside(arith, nodes, order, 0, data, start, x);
        lemma_cleared_at(grad, order, x);
    }
}

/// When a node hands its gradient on, every node computed from it has handed on before: the
/// gradient that the node hands on is the gradient that the pass leaves for it.
pub proof fn lemma_gradient_complete(
    arith: Arith,
    nodes: Seq<InnerValue>,
    root: usize,
    data: Seq<u64>,
    grad: Seq<u64>,
    k: nat,
)
    requires
        acyclic(nodes),
        root < nodes.len(),
        nodes.len() <= grad.len(),
        k < topological_order(nodes, root).len(),
    ensures
        ({
            let order = topological_order(nodes, root);
            let start = cleared(grad, order).update(root as int, ONE);
            swept(arith, nodes, order, k + 1, data, start)[order[k as int] as int] == gradients(
                arith,
                nodes,
                root,
                data,
                grad,
            )[order[k as int] as int]
        }),
{
    let order = topological_order(nodes, root);
    lemma_topological_order(nodes, root);
    lemma_cleared_len(grad, order);
    let start = cleared(grad, order).update(root as int, ONE);
    let x = order[k as int];
    assert forall|j: int, i: int|
        0 <= j < k + 1 && 0 <= i < nodes[order[j] as int].operands().len() implies (
    #[trigger] nodes[order[j] as int].operands()[i]) != x by {
        assert(earlier(order, nodes[order[j] as int].operands()[i], j));
    }
    lemma_swept_spares(arith, nodes, order, 0, k + 1, data, start, x);
}

/// After a backward pass the gradient of the root is one.
pub proof fn lemma_root_gradient(
    arith: Arith,
    nodes: Seq<InnerValue>,
    root: usize,
    data: Seq<u64>,
    grad: Seq<u64>,
)
    requires
        acyclic(nodes),
        root < nodes.len(),
        nodes.len() <= grad.len(),
    ensures
        gradients(arith, nodes, root, data, grad)[root as int] == ONE,
{
    let order = topological_order(nodes, root);
    lemma_topological_order(nodes, root);
    lemma_cleared_len(grad, order);
    let start = cleared(grad, order).update(root as int, ONE);
    assert forall|j: int, i: int|
        0 <= j < order.len() && 0 <= i < nodes[order[j] as int].operands().len() implies (
    #[trigger] nodes[order[j] as int].operands()[i]) != root by {
        assert(order.contains(order[j]));
        lemma_reaches_below(nodes, root, order[j]);
    }
    lemma_swept_spares(arith, nodes, order, 0, order.len(), data, start, root);
}

/// The gradients of a backward pass do not depend on what the gradients of the nodes in reach
/// of the root were before it.
pub proof fn lemma_gradients_fresh(
    arith: Arith,
    nodes: Seq<InnerValue>,
    root: usize,
    data: Seq<u64>,
    grad1: Seq<u64>,
    grad2: Seq<u64>,
)
    requires
        acyclic(nodes),
        root < nodes.len(),
        nodes.len() <= grad1.len(),
        grad1.len() == grad2.len(),
        grad1.len() <= usize::MAX,
        forall|x: usize| x < grad1.len() && !reaches(nodes, root, x) ==> grad1[x as int] == grad2[x as int],
    ensures
        gradients(arith, nodes, root, data, grad1) == gradients(arith, nodes, root, data, grad2),
{
    let order = topological_order(nodes, root);
    lemma_topological_order(nodes, root);
    lemma_cleared_len(grad1, order);
    lemma_cleared_len(grad2, order);
    let start1 = cleared(grad1, order).update(root as int, ONE);
    let start2 = cleared(grad2, order).update(root as int, ONE);
    assert(start1 =~= start2) by {
        assert forall|i: int| 0 <= i < start1.len() implies start1[i] == start2[i] by {
            let x = i as usize;
            lemma_cleared_at(grad1, order, x);
            lemma_cleared_at(grad2, order, x);
        }
    }
}

/// The gradients that a backward pass leaves for the nodes in reach of the root depend only on
/// the values of these nodes.
pub proof fn lemma_gradients_local(
    arith: Arith,
    nodes: Seq<InnerValue>,
    root: usize,
    data1: Seq<u64>,
    data2: Seq<u64>,
    grad1: Seq<u64>,
    grad2: Seq<u64>,
)
    requires
        acyclic(nodes),
        root < nodes.len(),
        nodes.len() <= grad1.len(),
        nodes.len() <= grad2.len(),
        agree(topological_order(nodes, root), data1, data2),
    ensures
        agree(
            topological_order(nodes, root),
            gradients(arith, nodes, root, data1, grad1),
            gradients(arith, nodes, root, data2, grad2),
        ),
{
    let order = topological_order(nodes, root);
    lemma_topological_order(nodes, root);
    lemma_cleared_len(grad1, order);
    lemma_cleared_len(grad2, order);
    let start1 = cleared(grad1, order).update(root as int, ONE);
    let start2 = cleared(grad2, order).update(root as int, ONE);
    assert forall|x: usize| #[trigger] order.contains(x) implies start1[x as int] == start2[x as int] by {
        lemma_reaches_below(nodes, root, x);
        lemma_cleared_at(grad1, order, x);
        lemma_cleared_at(grad2, order, x);
    }
    lemma_swept_agrees(arith, nodes, order, 0, data1, start1, data2, start2);
}

/// A second backward pass from the same root, on the same values, leaves the gradients as the
/// first pass left them.
pub proof fn lemma_backward_twice(
    arith: Arith,
    nodes: Seq<InnerValue>,
    root: usize,
    data: Seq<u64>,
    grad: Seq<u64>,
)
    requires
        acyclic(nodes),
        root < nodes.len(),
        nodes.len() <= grad.len(),
        grad.len() <= usize::MAX,
    ensures
        gradients(arith, nodes, root, data, gradients(arith, nodes, root, data, grad)) == gradients(
            arith,
            nodes,
            root,
            data,
            grad,
        ),
{
    lemma_gradients_elsewhere(arith, nodes, root, data, grad);
    lemma_gradients_fresh(arith, nodes, root, data, gradients(arith, nodes, root, data, grad), grad);
}

/// Running the code of a backward pass a second time leaves every value and every gradient
/// as the first run left it.
pub proof fn lemma_backward_code_twice(arith: Arith, m: Regs, nodes: Seq<InnerValue>, root: usize)
    requires
        acyclic(nodes),
        root < nodes.len(),
        nodes.len() <= m.data.len(),
        nodes.len() <= m.grad.len(),
        m.grad.len() <= usize::MAX,
    ensures
        run(arith, run(arith, m, backward_code(nodes, root)), backward_code(nodes, root)).grad == run(
            arith,
            m,
            backward_code(nodes, root),
        ).grad,
        run(arith, run(arith, m, backward_code(nodes, root)), backward_code(nodes, root)).data == m.data,
{
    lemma_backward(arith, m, nodes, root);
    lemma_gradients_elsewhere(arith, nodes, root, m.data, m.grad);
    lemma_backward(arith, run(arith, m, backward_code(nodes, root)), nodes, root);
    lemma_backward_twice(arith, nodes, root, m.data, m.grad);
}

/// A walk below a node meets only the nodes up to it: two graphs that are alike up to the
/// node give the same walk.
pub proof fn lemma_walk_alike(
    nodes1: Seq<InnerValue>,
    nodes2: Seq<InnerValue>,
    v: usize,
    k: nat,
    order: Seq<usize>,
)
    requires
        v < nodes1.len(),
        v < nodes2.len(),
        forall|i: int| 0 <= i <= v ==> nodes1[i] == nodes2[i],
    ensures
        walk(nodes1, v, k, order) == walk(nodes2, v, k, order),
    decreases v, nodes1[v as int].operands().len() - k,
{
    let ops = nodes1[v as int].operands();
    if k < ops.len() {
        let c = ops[k as int];
        if c < v && !order.contains(c) {
            lemma_walk_alike(nodes1, nodes2, c, 0, order);
            lemma_walk_alike(nodes1, nodes2, v, k + 1, walk(nodes1, c, 0, order));
        } else {
            lemma_walk_alike(nodes1, nodes2, v, k + 1, order);
        }
    }
}

/// The graph in which a new leaf that holds zero is added to the node `a`: the leaf, then the
/// sum.
pub open spec fn with_zero_added(nodes: Seq<InnerValue>, a: usize) -> Seq<InnerValue> {
    nodes.push(InnerValue::leaf(ZERO)).push(
        InnerValue::computed(Operation::Add(a, nodes.len() as usize)),
    )
}

/// The graph with a zero added has no cycle, and the order below the sum is the order below the
/// node, then the leaf, then the sum.
proof fn lemma_with_zero_added(nodes: Seq<InnerValue>, a: usize)
    requires
        acyclic(nodes),
        a < nodes.len(),
        nodes.len() + 1 <= usize::MAX,
    ensures
        acyclic(with_zero_added(nodes, a)),
        topological_order(with_zero_added(nodes, a), (nodes.len() + 1) as usize) == topological_order(
            nodes,
            a,
        ).push(nodes.len() as usize).push((nodes.len() + 1) as usize),
{
    let n = nodes.len() as usize;
    let top = (n + 1) as usize;
    let sum = with_zero_added(nodes, a);
    assert forall|i: int, k: int| 0 <= i < sum.len() && 0 <= k < sum[i].operands().len() implies (
    #[trigger] sum[i].operands()[k]) < i by {
        if i < n {
            assert(sum[i] == nodes[i]);
        }
    }
    let below = topological_order(nodes, a);
    lemma_topological_order(nodes, a);
    lemma_walk_alike(sum, nodes, a, 0, Seq::empty());
    assert(walk(sum, a, 0, Seq::empty()) == below);
    assert(!below.contains(n)) by {
        if below.contains(n) {
            lemma_reaches_below(nodes, a, n);
        }
    }
    assert(sum[top as int].operands() =~= seq![a, n]);
    assert(sum[n as int].operands() =~= Seq::<usize>::empty());
    assert(walk(sum, n, 0, below) == below.push(n));
    assert(walk(sum, top, 2, below.push(n)) == below.push(n).push(top));
    assert(walk(sum, top, 1, below) == walk(sum, top, 2, below.push(n)));
    assert(walk(sum, top, 0, Seq::empty()) == walk(sum, top, 1, below));
}

/// From gradients that are alike below the node after the sum has handed on, the two sweeps
/// leave gradients that are alike below the node.
proof fn lemma_add_zero_sweep(
    arith: Arith,
    nodes: Seq<InnerValue>,
    a: usize,
    k: nat,
    data: Seq<u64>,
    start1: Seq<u64>,
    start2: Seq<u64>,
)
    requires
        acyclic(nodes),
        a < nodes.len(),
        nodes.len() + 1 <= usize::MAX,
        arith(Prim::Add, ZERO, ONE) == ONE,
        nodes.len() + 2 <= start1.len(),
        nodes.len() <= start2.len(),
        k <= topological_order(nodes, a).len(),
        forall|x: usize| #[trigger]
            topological_order(nodes, a).contains(x) ==> start1[x as int] == ZERO && start2[x as int] == (if x
                == a {
                ONE
            } else {
                ZERO
            }),
        start1[(nodes.len() + 1) as int] == ONE,
    ensures
        agree(
            topological_order(nodes, a),
            swept(
                arith,
                with_zero_added(nodes, a),
                topological_order(with_zero_added(nodes, a), (nodes.len() + 1) as usize),
                k,
                data,
                start1,
            ),
            swept(arith, nodes, topological_order(nodes, a), k, data, start2),
        ),
    decreases topological_order(nodes, a).len() - k,
{
    let n = nodes.len() as usize;
    let top = (n + 1) as usize;
    let sum = with_zero_added(nodes, a);
    let below = topological_order(nodes, a);
    let above = topological_order(sum, top);
    lemma_topological_order(nodes, a);
    lemma_with_zero_added(nodes, a);
    lemma_topological_order(sum, top);
    let left = swept(arith, sum, above, k, data, start1);
    let right = swept(arith, nodes, below, k, data, start2);
    if k == below.len() {
        assert(above[k as int] == n);
        assert(above[(k + 1) as int] == top);
        assert(swept(arith, sum, above, k + 2, data, start1) == start1);
        let handed = sum[top as int].propagate(arith, top, data, start1);
        assert(swept(arith, sum, above, k + 1, data, start1) == handed);
        assert(left == sum[n as int].propagate(arith, n, data, handed));
        assert(left == handed);
        assert(right == start2);
        assert forall|x: usize| #[trigger] below.contains(x) implies left[x as int] == right[x as int] by {
            lemma_reaches_below(nodes, a, x);
        }
    } else {
        let y = below[k as int];
        assert(above[k as int] == y);
        assert(sum[y as int] == nodes[y as int]);
        lemma_add_zero_sweep(arith, nodes, a, k + 1, data, start1, start2);
        lemma_swept_len(arith, sum, above, k + 1, data, start1);
        lemma_swept_len(arith, nodes, below, k + 1, data, start2);
        assert forall|i: int| 0 <= i < nodes[y as int].operands().len() implies below.contains(
            #[trigger] nodes[y as int].operands()[i],
        ) by {
            assert(earlier(below, nodes[y as int].operands()[i], k as int));
        }
        assert(below.contains(y));
        assert forall|x: usize| #[trigger] below.contains(x) implies x < start1.len() && x < start2.len() by {
            lemma_reaches_below(nodes, a, x);
        }
        lemma_propagate_agrees(
            arith,
            nodes[y as int],
            y,
            below,
            data,
            swept(arith, sum, above, k + 1, data, start1),
            data,
            swept(arith, nodes, below, k + 1, data, start2),
        );
    }
}

/// Where the host's zero plus one is one: a backward pass from the sum of a node and a new leaf
/// that holds zero leaves, for the node and for every node that it depends on, the gradient
/// that a backward pass from the node itself leaves.
pub proof fn lemma_add_zero(
    arith: Arith,
    nodes: Seq<InnerValue>,
    a: usize,
    data: Seq<u64>,
    grad1: Seq<u64>,
    grad2: Seq<u64>,
)
    requires
        acyclic(nodes),
        a < nodes.len(),
        nodes.len() + 1 <= usize::MAX,
        arith(Prim::Add, ZERO, ONE) == ONE,
        nodes.len() + 2 <= grad1.len(),
        nodes.len() <= grad2.len(),
    ensures
        forall|x: usize|
            reaches(nodes, a, x) ==> gradients(
                arith,
                with_zero_added(nodes, a),
                (nodes.len() + 1) as usize,
                data,
                grad1,
            )[x as int] == gradients(arith, nodes, a, data, grad2)[x as int],
{
    let n = nodes.len() as usize;
    let top = (n + 1) as usize;
    let sum = with_zero_added(nodes, a);
    let below = topological_order(nodes, a);
    let above = topological_order(sum, top);
    lemma_topological_order(nodes, a);
    lemma_with_zero_added(nodes, a);
    lemma_topological_order(sum, top);
    lemma_cleared_len(grad1, above);
    lemma_cleared_len(grad2, below);
    let start1 = cleared(grad1, above).update(top as int, ONE);
    let start2 = cleared(grad2, below).update(a as int, ONE);
    assert forall|x: usize| #[trigger] below.contains(x) implies start1[x as int] == ZERO && start2[x as int]
        == (if x == a {
        ONE
    } else {
        ZERO
    }) by {
        lemma_reaches_below(nodes, a, x);
        let j = choose|j: int| 0 <= j < below.len() && below[j] == x;
        assert(above[j] == x);
        lemma_cleared_at(grad1, above, x);
        lemma_cleared_at(grad2, below, x);
    }
    lemma_add_zero_sweep(arith, nodes, a, 0, data, start1, start2);
}

/// The graph in which the node `x` is multiplied with itself.
pub open spec fn with_square(nodes: Seq<InnerValue>, x: usize) -> Seq<InnerValue> {
    nodes.push(InnerValue::computed(Operation::Mul(x, x)))
}

/// A node that is both operands of a product gets its gradient from both: after a backward
/// pass from the product of a node with itself, the gradient of the node is zero plus the
/// node's value times one, plus the node's value times one once more.
pub proof fn lemma_square_gradient(
    arith: Arith,
    nodes: Seq<InnerValue>,
    x: usize,
    data: Seq<u64>,
    grad: Seq<u64>,
)
    requires
        acyclic(nodes),
        x < nodes.len(),
        nodes.len() <= usize::MAX,
        nodes.len() + 1 <= grad.len(),
    ensures
        gradients(arith, with_square(nodes, x), nodes.len() as usize, data, grad)[x as int] == arith(
            Prim::Add,
            arith(Prim::Add, ZERO, arith(Prim::Mul, data[x as int], ONE)),
            arith(Prim::Mul, data[x as int], ONE),
        ),
{
    let n = nodes.len() as usize;
    let square = with_square(nodes, x);
    assert forall|i: int, k: int| 0 <= i < square.len() && 0 <= k < square[i].operands().len() implies (
    #[trigger] square[i].operands()[k]) < i by {
        if i < n {
            assert(square[i] == nodes[i]);
        }
    }
    let below = topological_order(nodes, x);
    lemma_topological_order(nodes, x);
    lemma_walk_alike(square, nodes, x, 0, Seq::empty());
    assert(below.contains(x)) by {
        assert(below[below.len() - 1] == x);
    }
    assert(square[n as int].operands() =~= seq![x, x]);
    assert(walk(square, n, 2, below) == below.push(n));
    assert(walk(square, n, 1, below) == walk(square, n, 2, below));
    assert(walk(square, n, 0, Seq::empty()) == walk(square, n, 1, below));
    let order = topological_order(square, n);
    assert(order == below.push(n));
    lemma_topological_order(square, n);
    lemma_cleared_len(grad, order);
    let start = cleared(grad, order).update(n as int, ONE);
    lemma_cleared_at(grad, order, x);
    assert(order.contains(x)) by {
        assert(order[below.len() - 1] == x);
    }
    let last = below.len();
    assert(swept(arith, square, order, last + 1, data, start) == start);
    let handed = swept(arith, square, order, last, data, start);
    assert(handed == square[n as int].propagate(arith, n, data, start));
    assert forall|j: int, i: int|
        0 <= j < last && 0 <= i < square[order[j] as int].operands().len() implies (
    #[trigger] square[order[j] as int].operands()[i]) != x by {
        assert(below.contains(below[j]));
        lemma_reaches_below(nodes, x, below[j]);
    }
    lemma_swept_spares(arith, square, order, 0, last, data, start, x);
}

} // verus!
