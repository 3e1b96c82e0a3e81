//! The order in which the backward pass meets the nodes: operands before results.

use vstd::prelude::*;
use crate::value::{acyclic, Graph, InnerValue, Value};

verus! {

/// The depth-first walk below `v`: the operands of `v` from the `k`-th on are visited in turn,
/// each one that `order` does not hold yet by a walk of its own, and then `v` is appended.
/// (An operand that does not stand before `v` is passed over; an acyclic graph has none.)
pub open spec fn walk(nodes: Seq<InnerValue>, v: usize, k: nat, order: Seq<usize>) -> Seq<usize>
    decreases v, nodes[v as int].operands().len() - k,
{
    let ops = nodes[v as int].operands();
    if k >= ops.len() {
        order.push(v)
    } else {
        let c = ops[k as int];
        let below = if c < v && !order.contains(c) {
            walk(nodes, c, 0, order)
        } else {
            order
        };
        walk(nodes, v, k + 1, below)
    }
}

/// The nodes that `root` depends on, `root` included, each once and after all of its operands.
pub open spec fn topological_order(nodes: Seq<InnerValue>, root: usize) -> Seq<usize> {
    walk(nodes, root, 0, Seq::empty())
}

/// Whether `to` is `from` or one of the nodes that `from` was computed from.
pub open spec fn reaches(nodes: Seq<InnerValue>, from: usize, to: usize) -> bool
    decreases from,
{
    let ops = nodes[from as int].operands();
    ||| from == to
    ||| ops.len() > 0 && ops[0] < from && reaches(nodes, ops[0], to)
    ||| ops.len() > 1 && ops[1] < from && reaches(nodes, ops[1], to)
}

/// Every entry of `order` is a node, no node occurs twice, and the operands of each entry
/// occur before it.
pub open spec fn operands_first(nodes: Seq<InnerValue>, order: Seq<usize>) -> bool {
    &&& order.no_duplicates()
    &&& forall|j: int| 0 <= j < order.len() ==> (#[trigger] order[j]) < nodes.len()
    &&& forall|j: int, k: int|
        0 <= j < order.len() && 0 <= k < nodes[order[j] as int].operands().len() ==> earlier(
            order,
            #[trigger] nodes[order[j] as int].operands()[k],
            j,
        )
}

/// Whether `x` occurs in `order` before position `j`.
pub open spec fn earlier(order: Seq<usize>, x: usize, j: int) -> bool {
    exists|i: int| 0 <= i < j && i < order.len() && order[i] == x
}

/// A node depends only on itself and on nodes that stand before it.
pub proof fn lemma_reaches_below(nodes: Seq<InnerValue>, from: usize, to: usize)
    requires
        reaches(nodes, from, to),
    ensures
        to <= from,
    decreases from,
{
    let ops = nodes[from as int].operands();
    if from == to {
    } else if ops.len() > 0 && ops[0] < from && reaches(nodes, ops[0], to) {
        lemma_reaches_below(nodes, ops[0], to);
    } else {
        lemma_reaches_below(nodes, ops[1], to);
    }
}

/// An order that holds the operands of each of its entries holds all that an entry depends on.
pub proof fn lemma_order_closed(nodes: Seq<InnerValue>, order: Seq<usize>, from: usize, to: usize)
    requires
        operands_first(nodes, order),
        order.contains(from),
        reaches(nodes, from, to),
    ensures
        order.contains(to),
    decreases from,
{
    let ops = nodes[from as int].operands();
    let j = choose|j: int| 0 <= j < order.len() && order[j] == from;
    if from == to {
    } else if ops.len() > 0 && ops[0] < from && reaches(nodes, ops[0], to) {
        assert(earlier(order, ops[0], j));
        lemma_order_closed(nodes, order, ops[0], to);
    } else {
        assert(earlier(order, ops[1], j));
        lemma_order_closed(nodes, order, ops[1], to);
    }
}

/// A walk below a node that the order lacks keeps the order as it was, appends to it only nodes
/// that the node depends on, the node itself last, and leaves every operand before its result.
pub proof fn lemma_walk(nodes: Seq<InnerValue>, v: usize, k: nat, order: Seq<usize>)
    requires
        acyclic(nodes),
        v < nodes.len(),
        operands_first(nodes, order),
        !order.contains(v),
        k <= nodes[v as int].operands().len(),
        forall|j: int| 0 <= j < k ==> order.contains(#[trigger] nodes[v as int].operands()[j]),
    ensures
        operands_first(nodes, walk(nodes, v, k, order)),
        walk(nodes, v, k, order).len() > order.len(),
        walk(nodes, v, k, order).subrange(0, order.len() as int) == order,
        walk(nodes, v, k, order).last() == v,
        forall|i: int|
            order.len() <= i < walk(nodes, v, k, order).len() ==> reaches(
                nodes,
                v,
                #[trigger] walk(nodes, v, k, order)[i],
            ),
    decreases v, nodes[v as int].operands().len() - k,
{
    let ops = nodes[v as int].operands();
    let r = walk(nodes, v, k, order);
    if k >= ops.len() {
        assert(r == order.push(v));
        assert(r.subrange(0, order.len() as int) =~= order);
        assert forall|j: int, m: int|
            0 <= j < r.len() && 0 <= m < nodes[r[j] as int].operands().len() implies earlier(
            r,
            #[trigger] nodes[r[j] as int].operands()[m],
            j,
        ) by {
            let x = nodes[r[j] as int].operands()[m];
            if j < order.len() {
                assert(earlier(order, x, j));
                let i = choose|i: int| 0 <= i < j && i < order.len() && order[i] == x;
                assert(r[i] == x);
            } else {
                assert(order.contains(x));
                let i = choose|i: int| 0 <= i < order.len() && order[i] == x;
                assert(r[i] == x);
            }
        }
    } else {
        let c = ops[k as int];
        assert(c < v);
        assert(ops.len() <= 2);
        if !order.contains(c) {
            lemma_walk(nodes, c, 0, order);
        }
        let below = if !order.contains(c) { walk(nodes, c, 0, order) } else { order };
        assert(order.len() <= below.len());
        assert(below.subrange(0, order.len() as int) =~= order);
        assert(below.contains(c)) by {
            if !order.contains(c) {
                assert(below[below.len() - 1] == c);
            }
        }
        assert forall|i: int| order.len() <= i < below.len() implies reaches(nodes, c, #[trigger] below[i])
            && below[i] != v by {
            lemma_reaches_below(nodes, c, below[i]);
        }
        assert(!below.contains(v)) by {
            if below.contains(v) {
                let i = choose|i: int| 0 <= i < below.len() && below[i] == v;
                if i < order.len() {
                    assert(below.subrange(0, order.len() as int)[i] == v);
                }
            }
        }
        assert forall|j: int| 0 <= j < k + 1 implies below.contains(#[trigger] ops[j]) by {
            if j < k {
                let i = choose|i: int| 0 <= i < order.len() && order[i] == ops[j];
                assert(below.subrange(0, order.len() as int)[i] == ops[j]);
            }
        }
        lemma_walk(nodes, v, k + 1, below);
        assert(r == walk(nodes, v, k + 1, below));
        assert(r.subrange(0, order.len() as int) =~= order) by {
            assert forall|i: int| 0 <= i < order.len() implies r[i] == order[i] by {
                assert(r.subrange(0, below.len() as int)[i] == below[i]);
                assert(below.subrange(0, order.len() as int)[i] == order[i]);
            }
        }
        assert forall|i: int| order.len() <= i < r.len() implies reaches(nodes, v, #[trigger] r[i]) by {
            if i < below.len() {
                assert(r.subrange(0, below.len() as int)[i] == below[i]);
                assert(reaches(nodes, c, below[i]));
            }
        }
    }
}

/// The order below `root` holds exactly the nodes that `root` depends on, each once and after
/// all of its operands, and `root` comes last.
pub proof fn lemma_topological_order(nodes: Seq<InnerValue>, root: usize)
    requires
        acyclic(nodes),
        root < nodes.len(),
    ensures
        operands_first(nodes, topological_order(nodes, root)),
        topological_order(nodes, root).len() > 0,
        topological_order(nodes, root).last() == root,
        forall|x: usize| topological_order(nodes, root).contains(x) <==> reaches(nodes, root, x),
{
    let order = topological_order(nodes, root);
    lemma_walk(nodes, root, 0, Seq::empty());
    assert(order.contains(root)) by {
        assert(order[order.len() - 1] == root);
    }
    assert forall|x: usize| order.contains(x) <==> reaches(nodes, root, x) by {
        if reaches(nodes, root, x) {
            lemma_order_closed(nodes, order, root, x);
        }
    }
}

/// What the traversal yields from `order` once every frame of `stack` is finished, the last
/// frame first. A frame holds a node and the number of its operands already handled.
spec fn unwind(nodes: Seq<InnerValue>, stack: Seq<(usize, usize)>, order: Seq<usize>) -> Seq<usize>
    decreases stack.len(),
{
    if stack.len() == 0 {
        order
    } else {
        let (v, k) = stack.last();
        unwind(nodes, stack.drop_last(), walk(nodes, v, k as nat, order))
    }
}

/// Whether a frame of `stack` holds node `x`.
spec fn on_stack(stack: Seq<(usize, usize)>, x: usize) -> bool {
    exists|j: int| 0 <= j < stack.len() && (#[trigger] stack[j]).0 == x
}

/// The number of marks not yet set.
spec fn unmarked(marks: Seq<bool>) -> nat
    decreases marks.len(),
{
    if marks.len() == 0 {
        0
    } else {
        unmarked(marks.drop_last()) + if marks.last() { 0nat } else { 1nat }
    }
}

/// A bound on the steps that the frames of `stack` still take by themselves.
spec fn pending(stack: Seq<(usize, usize)>) -> nat
    decreases stack.len(),
{
    if stack.len() == 0 {
        0
    } else {
        pending(stack.drop_last()) + if stack.last().1 <= 2 { (3 - stack.last().1) as nat } else { 0nat }
    }
}

/// Setting a mark leaves fewer marks to set.
proof fn lemma_mark(marks: Seq<bool>, i: int)
    requires
        0 <= i < marks.len(),
        !marks[i],
    ensures
        unmarked(marks.update(i, true)) < unmarked(marks),
    decreases marks.len(),
{
    let after = marks.update(i, true);
    if i == marks.len() - 1 {
        assert(after.drop_last() =~= marks.drop_last());
    } else {
        lemma_mark(marks.drop_last(), i);
        assert(after.drop_last() =~= marks.drop_last().update(i, true));
    }
}

impl Graph {
    /// The nodes that `root` depends on, in the order of a depth-first walk that appends a node
    /// after its operands and meets no node twice: each of them once, after all of its operands,
    /// and `root` last.
    pub fn topological_order(&self, root: Value) -> (order: Vec<usize>)
        requires
            self.wf(),
            self.holds(root),
        ensures
            order@ == topological_order(self@, root.inner),
            operands_first(self@, order@),
            order@.len() > 0 && order@.last() == root.inner,
            forall|x: usize| order@.contains(x) <==> reaches(self@, root.inner, x),
    {
        let n: usize = self.len();
        let mut seen: Vec<bool> = Vec::new();
        while seen.len() < n
            invariant
                seen@.len() <= n,
                forall|x: int| 0 <= x < seen@.len() ==> !seen@[x],
            decreases n - seen@.len(),
        {
            seen.push(false);
        }
        let mut order: Vec<usize> = Vec::new();
        let mut stack: Vec<(usize, usize)> = Vec::new();
        seen.set(root.inner, true);
        stack.push((root.inner, 0));
        proof {
            assert(stack@.drop_last() =~= Seq::<(usize, usize)>::empty());
            assert(unwind(self@, stack@.drop_last(), walk(self@, root.inner, 0, order@)) == walk(
                self@,
                root.inner,
                0,
                order@,
            ));
            assert(on_stack(stack@, root.inner)) by {
                assert(stack@[0].0 == root.inner);
            }
            assert(order@ =~= Seq::<usize>::empty());
        }
        while stack.len() > 0
            invariant
                self.wf(),
                n == self@.len(),
                seen@.len() == n,
                forall|j: int|
                    0 <= j < stack@.len() ==> (#[trigger] stack@[j]).0 < n && stack@[j].1
                        <= self@[stack@[j].0 as int].operands().len(),
                forall|i: int, j: int|
                    0 <= i < j < stack@.len() ==> (#[trigger] stack@[i]).0 > (#[trigger] stack@[j]).0,
                forall|x: usize|
                    x < n ==> (seen@[x as int] <==> order@.contains(x) || on_stack(stack@, x)),
                unwind(self@, stack@, order@) == topological_order(self@, root.inner),
            decreases unmarked(seen@), pending(stack@),
        {
            let top: usize = stack.len() - 1;
            let (v, k) = stack[top];
            let node = self.node(Value { inner: v });
            let ghost before = stack@;
            let ghost marks = seen@;
            let ghost sofar = order@;
            assert(before.last() == (v, k));
            if k < node.arity() {
                let c: usize = node.operand(k);
                assert(c < v);
                stack.set(top, (v, k + 1));
                let ghost moved = stack@;
                proof {
                    assert(moved.drop_last() =~= before.drop_last());
                    assert(moved.last() == (v, (k + 1) as usize));
                    assert(!on_stack(before, c)) by {
                        if on_stack(before, c) {
                            let j = choose|j: int| 0 <= j < before.len() && (#[trigger] before[j]).0 == c;
                            assert(before[j].0 >= before[top as int].0);
                        }
                    }
                    assert forall|x: usize| on_stack(moved, x) == on_stack(before, x) by {
                        if on_stack(moved, x) {
                            let j = choose|j: int| 0 <= j < moved.len() && (#[trigger] moved[j]).0 == x;
                            assert(before[j].0 == x);
                        }
                        if on_stack(before, x) {
                            let j = choose|j: int| 0 <= j < before.len() && (#[trigger] before[j]).0 == x;
                            assert(moved[j].0 == x);
                        }
                    }
                }
                if !seen[c] {
                    seen.set(c, true);
                    stack.push((c, 0));
                    proof {
                        lemma_mark(marks, c as int);
                        assert(!sofar.contains(c));
                        assert(stack@.drop_last() =~= moved);
                        assert(stack@.last() == (c, 0usize));
                        let below = walk(self@, c, 0, sofar);
                        assert(walk(self@, v, k as nat, sofar) == walk(self@, v, (k + 1) as nat, below));
                        assert(unwind(self@, stack@, sofar) == unwind(self@, moved, below));
                        assert(unwind(self@, moved, below) == unwind(
                            self@,
                            before.drop_last(),
                            walk(self@, v, (k + 1) as nat, below),
                        ));
                        assert forall|x: usize| x < n implies (seen@[x as int] <==> sofar.contains(x)
                            || on_stack(stack@, x)) by {
                            if on_stack(stack@, x) {
                                let j = choose|j: int| 0 <= j < stack@.len() && (#[trigger] stack@[j]).0 == x;
                                if j < moved.len() {
                                    assert(moved[j].0 == x);
                                }
                            }
                            if on_stack(moved, x) {
                                let j = choose|j: int| 0 <= j < moved.len() && (#[trigger] moved[j]).0 == x;
                                assert(stack@[j].0 == x);
                            }
                            if x == c {
                                assert(stack@[stack@.len() - 1].0 == c);
                            }
                        }
                    }
                } else {
                    proof {
                        assert(sofar.contains(c));
                        assert(walk(self@, v, k as nat, sofar) == walk(self@, v, (k + 1) as nat, sofar));
                        assert(unwind(self@, moved, sofar) == unwind(
                            self@,
                            before.drop_last(),
                            walk(self@, v, (k + 1) as nat, sofar),
                        ));
                    }
                }
            } else {
                order.push(v);
                stack.pop();
                proof {
                    assert(stack@ =~= before.drop_last());
                    assert(walk(self@, v, k as nat, sofar) == sofar.push(v));
                    assert forall|x: usize| x < n implies (seen@[x as int] <==> order@.contains(x)
                        || on_stack(stack@, x)) by {
                        if on_stack(stack@, x) {
                            let j = choose|j: int| 0 <= j < stack@.len() && (#[trigger] stack@[j]).0 == x;
                            assert(before[j].0 == x);
                        }
                        if on_stack(before, x) {
                            let j = choose|j: int| 0 <= j < before.len() && (#[trigger] before[j]).0 == x;
                            if j < stack@.len() {
                                assert(stack@[j].0 == x);
                            } else {
                                assert(x == v);
                            }
                        }
                        if sofar.contains(x) {
                            let i = choose|i: int| 0 <= i < sofar.len() && sofar[i] == x;
                            assert(order@[i] == x);
                        }
                        if order@.contains(x) {
                            let i = choose|i: int| 0 <= i < order@.len() && order@[i] == x;
                            if i < sofar.len() {
                                assert(sofar[i] == x);
                            }
                        }
                        if x == v {
                            assert(order@[order@.len() - 1] == v);
                        }
                    }
                }
            }
        }
        proof {
            lemma_topological_order(self@, root.inner);
        }
        order
    }
}

} // verus!
