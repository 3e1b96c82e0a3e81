//! The backward pass: how a node hands its gradient on to its operands, in which order the
//! nodes do so, and the code that carries it out.

use vstd::prelude::*;
use crate::order::{lemma_topological_order, operands_first, topological_order};
use crate::scalar::{is_zero, zero, Arith, Prim, ONE, ZERO};
use crate::tape::Instr::{Apply, Load};
use crate::tape::Reg::{Data, First, Grad, Second};
use crate::tape::{answers_as, fits, lemma_run_concat, run, step, Instr, Machine, Regs, Request};
use crate::value::{acyclic, Graph, InnerValue, Operation, Value};

verus! {

/// The gradients after `amount` is added to the gradient of the node `target`.
pub open spec fn accumulate(arith: Arith, grad: Seq<u64>, target: usize, amount: u64) -> Seq<u64> {
    grad.update(target as int, arith(Prim::Add, grad[target as int], amount))
}

/// The derivative of `x` raised to `n`: zero where `n` is zero, else `n` times `x` raised to
/// `n - 1`.
pub open spec fn power_slope(arith: Arith, x: u64, n: u64) -> u64 {
    if is_zero(n) {
        ZERO
    } else {
        arith(Prim::Mul, n, arith(Prim::Pow, x, arith(Prim::Sub, n, ONE)))
    }
}

/// The derivative of the hyperbolic tangent where its value is `t`: one less the square of `t`.
pub open spec fn tanh_slope(arith: Arith, t: u64) -> u64 {
    arith(Prim::Sub, ONE, arith(Prim::Mul, t, t))
}

impl Operation {
    /// The gradients after the node `out`, which this operation produced, has handed its
    /// gradient on: each operand's gradient grows by the gradient of `out` times the derivative
    /// of `out` with respect to that operand, the first operand before the second.
    pub open spec fn propagate(self, arith: Arith, out: usize, data: Seq<u64>, grad: Seq<u64>) -> Seq<u64> {
        let g = grad[out as int];
        match self {
            Operation::Add(a, b) => accumulate(arith, accumulate(arith, grad, a, g), b, g),
            Operation::Mul(a, b) => accumulate(
                arith,
                accumulate(arith, grad, a, arith(Prim::Mul, data[b as int], g)),
                b,
                arith(Prim::Mul, data[a as int], g),
            ),
            Operation::Tanh(a) => accumulate(
                arith,
                grad,
                a,
                arith(Prim::Mul, tanh_slope(arith, data[out as int]), g),
            ),
            Operation::Exp(a) => accumulate(arith, grad, a, arith(Prim::Mul, data[out as int], g)),
            Operation::Pow(a, n) => accumulate(
                arith,
                grad,
                a,
                arith(Prim::Mul, power_slope(arith, data[a as int], n), g),
            ),
        }
    }

    /// The code by which the node `out` hands its gradient on to its operands.
    pub open spec fn backward_code(self, out: usize) -> Seq<Instr> {
        let g = Grad(out);
        match self {
            Operation::Add(a, b) => seq![
                Apply { prim: Prim::Add, dst: Grad(a), lhs: Grad(a), rhs: g },
                Apply { prim: Prim::Add, dst: Grad(b), lhs: Grad(b), rhs: g },
            ],
            Operation::Mul(a, b) => seq![
                Apply { prim: Prim::Mul, dst: First, lhs: Data(b), rhs: g },
                Apply { prim: Prim::Add, dst: Grad(a), lhs: Grad(a), rhs: First },
                Apply { prim: Prim::Mul, dst: First, lhs: Data(a), rhs: g },
                Apply { prim: Prim::Add, dst: Grad(b), lhs: Grad(b), rhs: First },
            ],
            Operation::Tanh(a) => seq![
                Apply { prim: Prim::Mul, dst: First, lhs: Data(out), rhs: Data(out) },
                Load { dst: Second, bits: ONE },
                Apply { prim: Prim::Sub, dst: First, lhs: Second, rhs: First },
                Apply { prim: Prim::Mul, dst: First, lhs: First, rhs: g },
                Apply { prim: Prim::Add, dst: Grad(a), lhs: Grad(a), rhs: First },
            ],
            Operation::Exp(a) => seq![
                Apply { prim: Prim::Mul, dst: First, lhs: Data(out), rhs: g },
                Apply { prim: Prim::Add, dst: Grad(a), lhs: Grad(a), rhs: First },
            ],
            Operation::Pow(a, n) => if is_zero(n) {
                seq![
                    Load { dst: First, bits: ZERO },
                    Apply { prim: Prim::Mul, dst: First, lhs: First, rhs: g },
                    Apply { prim: Prim::Add, dst: Grad(a), lhs: Grad(a), rhs: First },
                ]
            } else {
                seq![
                    Load { dst: First, bits: n },
                    Load { dst: Second, bits: ONE },
                    Apply { prim: Prim::Sub, dst: Second, lhs: First, rhs: Second },
                    Apply { prim: Prim::Pow, dst: Second, lhs: Data(a), rhs: Second },
                    Apply { prim: Prim::Mul, dst: First, lhs: First, rhs: Second },
                    Apply { prim: Prim::Mul, dst: First, lhs: First, rhs: g },
                    Apply { prim: Prim::Add, dst: Grad(a), lhs: Grad(a), rhs: First },
                ]
            },
        }
    }

    /// The code by which the node `out`, which this operation produced, hands its gradient on
    /// to its operands. Run on a machine that holds the values of the nodes, it adds to the
    /// gradient of each operand what `out` hands on to it, and changes no value.
    pub fn backward(&self, out: usize) -> (code: Vec<Instr>)
        ensures
            code@ == self.backward_code(out),
            forall|arith: Arith, m: Regs|
                out < m.data.len() && out < m.grad.len() && self.below(out) ==> {
                    &&& (#[trigger] run(arith, m, code@)).grad == self.propagate(arith, out, m.data, m.grad)
                    &&& run(arith, m, code@).data == m.data
                },
    {
        let g = Grad(out);
        let code = match *self {
            Operation::Add(a, b) => vec![
                Apply { prim: Prim::Add, dst: Grad(a), lhs: Grad(a), rhs: g },
                Apply { prim: Prim::Add, dst: Grad(b), lhs: Grad(b), rhs: g },
            ],
            Operation::Mul(a, b) => vec![
                Apply { prim: Prim::Mul, dst: First, lhs: Data(b), rhs: g },
                Apply { prim: Prim::Add, dst: Grad(a), lhs: Grad(a), rhs: First },
                Apply { prim: Prim::Mul, dst: First, lhs: Data(a), rhs: g },
                Apply { prim: Prim::Add, dst: Grad(b), lhs: Grad(b), rhs: First },
            ],
            Operation::Tanh(a) => vec![
                Apply { prim: Prim::Mul, dst: First, lhs: Data(out), rhs: Data(out) },
                Load { dst: Second, bits: ONE },
                Apply { prim: Prim::Sub, dst: First, lhs: Second, rhs: First },
                Apply { prim: Prim::Mul, dst: First, lhs: First, rhs: g },
                Apply { prim: Prim::Add, dst: Grad(a), lhs: Grad(a), rhs: First },
            ],
            Operation::Exp(a) => vec![
                Apply { prim: Prim::Mul, dst: First, lhs: Data(out), rhs: g },
                Apply { prim: Prim::Add, dst: Grad(a), lhs: Grad(a), rhs: First },
            ],
            Operation::Pow(a, n) => if zero(n) {
                vec![
                    Load { dst: First, bits: ZERO },
                    Apply { prim: Prim::Mul, dst: First, lhs: First, rhs: g },
                    Apply { prim: Prim::Add, dst: Grad(a), lhs: Grad(a), rhs: First },
                ]
            } else {
                vec![
                    Load { dst: First, bits: n },
                    Load { dst: Second, bits: ONE },
                    Apply { prim: Prim::Sub, dst: Second, lhs: First, rhs: Second },
                    Apply { prim: Prim::Pow, dst: Second, lhs: Data(a), rhs: Second },
                    Apply { prim: Prim::Mul, dst: First, lhs: First, rhs: Second },
                    Apply { prim: Prim::Mul, dst: First, lhs: First, rhs: g },
                    Apply { prim: Prim::Add, dst: Grad(a), lhs: Grad(a), rhs: First },
                ]
            },
        };
        proof {
            assert(code@ =~= self.backward_code(out));
            let node = InnerValue::computed(*self);
            assert forall|arith: Arith, m: Regs|
                out < m.data.len() && out < m.grad.len() && self.below(out) implies {
                &&& (#[trigger] run(arith, m, code@)).grad == self.propagate(arith, out, m.data, m.grad)
                &&& run(arith, m, code@).data == m.data
            } by {
                lemma_backward_node(arith, m, node, out);
            }
        }
        code
    }
}

impl InnerValue {
    /// The gradients after this node, the node `out`, has handed its gradient on to its
    /// operands. A leaf has none and changes nothing.
    pub open spec fn propagate(self, arith: Arith, out: usize, data: Seq<u64>, grad: Seq<u64>) -> Seq<u64> {
        match self.op {
            Some(op) => op.propagate(arith, out, data, grad),
            None => grad,
        }
    }

    /// The code by which this node, the node `out`, hands its gradient on to its operands.
    pub open spec fn backward_code(self, out: usize) -> Seq<Instr> {
        match self.op {
            Some(op) => op.backward_code(out),
            None => Seq::empty(),
        }
    }

    /// The code by which this node, the node `out`, hands its gradient on to its operands:
    /// that of its operation, and none for a leaf.
    pub fn backwards(&self, out: usize) -> (code: Vec<Instr>)
        ensures
            code@ == self.backward_code(out),
            forall|arith: Arith, m: Regs|
                out < m.data.len() && out < m.grad.len() && self.below(out) ==> {
                    &&& (#[trigger] run(arith, m, code@)).grad == self.propagate(arith, out, m.data, m.grad)
                    &&& run(arith, m, code@).data == m.data
                },
    {
        let code = match &self.op {
            Some(op) => op.backward(out),
            None => Vec::new(),
        };
        proof {
            assert forall|arith: Arith, m: Regs|
                out < m.data.len() && out < m.grad.len() && self.below(out) implies {
                &&& (#[trigger] run(arith, m, code@)).grad == self.propagate(arith, out, m.data, m.grad)
                &&& run(arith, m, code@).data == m.data
            } by {
                lemma_backward_node(arith, m, *self, out);
            }
        }
        code
    }
}

/// The code of one node adds to the gradients of its operands what the node hands on, and
/// changes no value.
pub proof fn lemma_backward_node(arith: Arith, m: Regs, node: InnerValue, out: usize)
    requires
        out < m.data.len(),
        out < m.grad.len(),
        node.below(out),
    ensures
        run(arith, m, node.backward_code(out)).grad == node.propagate(arith, out, m.data, m.grad),
        run(arith, m, node.backward_code(out)).data == m.data,
{
    reveal_with_fuel(run, 8);
    let code = node.backward_code(out);
    match node.op {
        None => {},
        Some(Operation::Add(a, b)) => {
            assert(node.operands()[0] == a && node.operands()[1] == b);
        },
        Some(Operation::Mul(a, b)) => {
            assert(node.operands()[0] == a && node.operands()[1] == b);
        },
        Some(Operation::Tanh(a)) => {
            assert(node.operands()[0] == a);
        },
        Some(Operation::Exp(a)) => {
            assert(node.operands()[0] == a);
        },
        Some(Operation::Pow(a, n)) => {
            assert(node.operands()[0] == a);
        },
    }
    assert(run(arith, m, code).grad =~= node.propagate(arith, out, m.data, m.grad));
    assert(run(arith, m, code).data =~= m.data);
}

/// The gradients with zero at every entry of `order`.
pub open spec fn cleared(grad: Seq<u64>, order: Seq<usize>) -> Seq<u64>
    decreases order.len(),
{
    if order.len() == 0 {
        grad
    } else {
        cleared(grad, order.drop_last()).update(order.last() as int, ZERO)
    }
}

/// The gradients after the entries of `order` from the `k`-th on have handed theirs on, the
/// last entry first.
pub open spec fn swept(
    arith: Arith,
    nodes: Seq<InnerValue>,
    order: Seq<usize>,
    k: nat,
    data: Seq<u64>,
    grad: Seq<u64>,
) -> Seq<u64>
    decreases order.len() - k,
{
    if k >= order.len() {
        grad
    } else {
        let x = order[k as int];
        nodes[x as int].propagate(arith, x, data, swept(arith, nodes, order, k + 1, data, grad))
    }
}

/// The gradients after a backward pass from `root`, where the values are `data` and the
/// gradients were `grad`: every node that `root` depends on starts at zero and `root` at one;
/// then these nodes hand their gradients on, each after all the nodes computed from it.
pub open spec fn gradients(
    arith: Arith,
    nodes: Seq<InnerValue>,
    root: usize,
    data: Seq<u64>,
    grad: Seq<u64>,
) -> Seq<u64> {
    let order = topological_order(nodes, root);
    swept(arith, nodes, order, 0, data, cleared(grad, order).update(root as int, ONE))
}

/// The code that stores zero in the gradient of every entry of `order`.
pub open spec fn clear_code(order: Seq<usize>) -> Seq<Instr> {
    Seq::new(order.len(), |j: int| Load { dst: Grad(order[j]), bits: ZERO })
}

/// The code by which the entries of `order` from the `k`-th on hand their gradients on, the
/// last entry first.
pub open spec fn sweep_code(nodes: Seq<InnerValue>, order: Seq<usize>, k: nat) -> Seq<Instr>
    decreases order.len() - k,
{
    if k >= order.len() {
        Seq::empty()
    } else {
        let x = order[k as int];
        sweep_code(nodes, order, k + 1) + nodes[x as int].backward_code(x)
    }
}

/// The code of a backward pass from `root`.
pub open spec fn backward_code(nodes: Seq<InnerValue>, root: usize) -> Seq<Instr> {
    let order = topological_order(nodes, root);
    clear_code(order) + seq![Load { dst: Grad(root), bits: ONE }] + sweep_code(nodes, order, 0)
}

/// Clearing keeps the number of gradients.
pub proof fn lemma_cleared_len(grad: Seq<u64>, order: Seq<usize>)
    requires
        forall|j: int| 0 <= j < order.len() ==> (#[trigger] order[j]) < grad.len(),
    ensures
        cleared(grad, order).len() == grad.len(),
    decreases order.len(),
{
    if order.len() > 0 {
        assert forall|j: int| 0 <= j < order.drop_last().len() implies (#[trigger] order.drop_last()[j])
            < grad.len() by {
            assert(order.drop_last()[j] == order[j]);
        }
        lemma_cleared_len(grad, order.drop_last());
    }
}

/// The clearing code clears the gradients of the entries of `order`, and changes no value.
pub proof fn lemma_clear(arith: Arith, m: Regs, order: Seq<usize>)
    requires
        forall|j: int| 0 <= j < order.len() ==> (#[trigger] order[j]) < m.grad.len(),
    ensures
        run(arith, m, clear_code(order)).grad == cleared(m.grad, order),
        run(arith, m, clear_code(order)).data == m.data,
    decreases order.len(),
{
    if order.len() > 0 {
        let head = order.drop_last();
        assert forall|j: int| 0 <= j < head.len() implies (#[trigger] head[j]) < m.grad.len() by {
            assert(head[j] == order[j]);
        }
        lemma_clear(arith, m, head);
        assert(clear_code(order).drop_last() =~= clear_code(head));
        assert(clear_code(order).last() == Load { dst: Grad(order.last()), bits: ZERO });
    } else {
        assert(clear_code(order).len() == 0);
    }
}

/// A node that hands its gradient on keeps the number of gradients.
pub proof fn lemma_propagate_len(arith: Arith, node: InnerValue, out: usize, data: Seq<u64>, grad: Seq<u64>)
    requires
        forall|k: int| 0 <= k < node.operands().len() ==> (#[trigger] node.operands()[k]) < grad.len(),
    ensures
        node.propagate(arith, out, data, grad).len() == grad.len(),
{
    match node.op {
        None => {},
        Some(Operation::Add(a, b)) => {
            assert(node.operands()[0] == a && node.operands()[1] == b);
        },
        Some(Operation::Mul(a, b)) => {
            assert(node.operands()[0] == a && node.operands()[1] == b);
        },
        Some(Operation::Tanh(a)) => {
            assert(node.operands()[0] == a);
        },
        Some(Operation::Exp(a)) => {
            assert(node.operands()[0] == a);
        },
        Some(Operation::Pow(a, n)) => {
            assert(node.operands()[0] == a);
        },
    }
}

/// A sweep keeps the number of gradients.
pub proof fn lemma_swept_len(
    arith: Arith,
    nodes: Seq<InnerValue>,
    order: Seq<usize>,
    k: nat,
    data: Seq<u64>,
    grad: Seq<u64>,
)
    requires
        acyclic(nodes),
        nodes.len() <= grad.len(),
        forall|j: int| 0 <= j < order.len() ==> (#[trigger] order[j]) < nodes.len(),
    ensures
        swept(arith, nodes, order, k, data, grad).len() == grad.len(),
    decreases order.len() - k,
{
    if k < order.len() {
        lemma_swept_len(arith, nodes, order, k + 1, data, grad);
        let x = order[k as int];
        lemma_propagate_len(arith, nodes[x as int], x, data, swept(arith, nodes, order, k + 1, data, grad));
    }
}

/// The sweeping code hands the gradients on as the sweep says, and changes no value.
pub proof fn lemma_sweep(arith: Arith, m: Regs, nodes: Seq<InnerValue>, order: Seq<usize>, k: nat)
    requires
        acyclic(nodes),
        nodes.len() <= m.data.len(),
        nodes.len() <= m.grad.len(),
        forall|j: int| 0 <= j < order.len() ==> (#[trigger] order[j]) < nodes.len(),
    ensures
        run(arith, m, sweep_code(nodes, order, k)).grad == swept(arith, nodes, order, k, m.data, m.grad),
        run(arith, m, sweep_code(nodes, order, k)).data == m.data,
    decreases order.len() - k,
{
    if k < order.len() {
        let x = order[k as int];
        lemma_sweep(arith, m, nodes, order, k + 1);
        lemma_swept_len(arith, nodes, order, k + 1, m.data, m.grad);
        let mid = run(arith, m, sweep_code(nodes, order, k + 1));
        lemma_run_concat(arith, m, sweep_code(nodes, order, k + 1), nodes[x as int].backward_code(x));
        lemma_backward_node(arith, mid, nodes[x as int], x);
    }
}

/// The code of a backward pass leaves in the gradient registers the gradients of the pass, and
/// changes no value.
pub proof fn lemma_backward(arith: Arith, m: Regs, nodes: Seq<InnerValue>, root: usize)
    requires
        acyclic(nodes),
        root < nodes.len(),
        nodes.len() <= m.data.len(),
        nodes.len() <= m.grad.len(),
    ensures
        run(arith, m, backward_code(nodes, root)).grad == gradients(arith, nodes, root, m.data, m.grad),
        run(arith, m, backward_code(nodes, root)).data == m.data,
{
    let order = topological_order(nodes, root);
    lemma_topological_order(nodes, root);
    let seed = seq![Load { dst: Grad(root), bits: ONE }];
    lemma_clear(arith, m, order);
    lemma_cleared_len(m.grad, order);
    let m1 = run(arith, m, clear_code(order));
    lemma_run_concat(arith, m, clear_code(order), seed);
    let m2 = run(arith, m, clear_code(order) + seed);
    assert(m2 == step(arith, m1, seed[0])) by {
        reveal_with_fuel(run, 2);
        assert(seed.drop_last() =~= Seq::<Instr>::empty());
    }
    lemma_run_concat(arith, m, clear_code(order) + seed, sweep_code(nodes, order, 0));
    lemma_sweep(arith, m2, nodes, order, 0);
}

impl Value {
    /// The code of a backward pass from this node. Run on a machine that has registers for
    /// every node and holds the values of the nodes, it leaves the gradients of the pass in the
    /// gradient registers, and changes no value.
    pub fn backwards(&self, g: &Graph) -> (code: Vec<Instr>)
        requires
            g.wf(),
            g.holds(*self),
        ensures
            code@ == backward_code(g@, self.inner),
            fits(code@, g@.len()),
            forall|arith: Arith, m: Regs|
                m.holds(g@.len()) ==> {
                    &&& (#[trigger] run(arith, m, code@)).grad == gradients(
                        arith,
                        g@,
                        self.inner,
                        m.data,
                        m.grad,
                    )
                    &&& run(arith, m, code@).data == m.data
                },
    {
        let order = g.topological_order(*self);
        let n: usize = order.len();
        proof {
            lemma_topological_order(g@, self.inner);
        }
        let mut code: Vec<Instr> = Vec::new();
        let mut j: usize = 0;
        while j < n
            invariant
                j <= n,
                n == order@.len(),
                operands_first(g@, order@),
                code@ == clear_code(order@.subrange(0, j as int)),
                fits(code@, g@.len()),
            decreases n - j,
        {
            code.push(Load { dst: Grad(order[j]), bits: ZERO });
            proof {
                assert(code@ =~= clear_code(order@.subrange(0, j + 1)));
            }
            j = j + 1;
        }
        code.push(Load { dst: Grad(self.inner), bits: ONE });
        let ghost head = code@;
        proof {
            assert(order@.subrange(0, n as int) =~= order@);
            assert(head =~= clear_code(order@) + seq![Load { dst: Grad(self.inner), bits: ONE }]);
        }
        let mut k: usize = n;
        while k > 0
            invariant
                k <= n,
                n == order@.len(),
                g.wf(),
                operands_first(g@, order@),
                code@ == head + sweep_code(g@, order@, k as nat),
                fits(code@, g@.len()),
            decreases k,
        {
            k = k - 1;
            let x: usize = order[k];
            let node = g.node(Value { inner: x });
            let mut piece = node.backwards(x);
            proof {
                assert(head + (sweep_code(g@, order@, (k + 1) as nat) + piece@) =~= head + sweep_code(
                    g@,
                    order@,
                    (k + 1) as nat,
                ) + piece@);
                assert(fits(piece@, g@.len())) by {
                    assert forall|i: int| 0 <= i < piece@.len() implies (#[trigger] piece@[i]).within(
                        g@.len(),
                    ) by {
                        match node.op {
                            None => {},
                            Some(Operation::Add(a, b)) => {
                                assert(node.operands()[0] == a && node.operands()[1] == b);
                            },
                            Some(Operation::Mul(a, b)) => {
                                assert(node.operands()[0] == a && node.operands()[1] == b);
                            },
                            Some(Operation::Tanh(a)) => {
                                assert(node.operands()[0] == a);
                            },
                            Some(Operation::Exp(a)) => {
                                assert(node.operands()[0] == a);
                            },
                            Some(Operation::Pow(a, n)) => {
                                assert(node.operands()[0] == a);
                            },
                        }
                    }
                }
            }
            code.append(&mut piece);
        }
        proof {
            assert forall|arith: Arith, m: Regs| m.holds(g@.len()) implies {
                &&& (#[trigger] run(arith, m, code@)).grad == gradients(arith, g@, self.inner, m.data, m.grad)
                &&& run(arith, m, code@).data == m.data
            } by {
                lemma_backward(arith, m, g@, self.inner);
            }
        }
        code
    }
}

impl Machine {
    /// Runs a backward pass of `g` from `root`, with `host` to answer the requests, if the
    /// machine has registers for every node of `g`; else the machine stays as it is. Says which
    /// of the two it was. The pass reads the values of the nodes from the data registers and
    /// leaves its gradients in the gradient registers; no value has changed.
    pub fn differentiate<F: Fn(Request) -> u64>(&mut self, g: &Graph, root: Value, host: F) -> (done: bool)
        requires
            g.wf(),
            g.holds(root),
            forall|q: Request| host.requires((q,)),
        ensures
            done == old(self)@.holds(g@.len()),
            !done ==> final(self)@ == old(self)@,
            final(self)@.data.len() == old(self)@.data.len(),
            final(self)@.grad.len() == old(self)@.grad.len(),
            done ==> forall|arith: Arith| #[trigger]
                answers_as(host, arith) ==> {
                    &&& final(self)@.grad == gradients(
                        arith,
                        g@,
                        root.inner,
                        old(self)@.data,
                        old(self)@.grad,
                    )
                    &&& final(self)@.data == old(self)@.data
                },
    {
        if !self.holds(g.len()) {
            return false;
        }
        let code = root.backwards(g);
        let done = self.execute(code.as_slice(), host);
        proof {
            assert forall|j: int| 0 <= j < code@.len() implies old(self)@.fits(#[trigger] code@[j]) by {
                assert(code@[j].within(g@.len()));
            }
            assert forall|arith: Arith| #[trigger] answers_as(host, arith) implies {
                &&& self@.grad == gradients(arith, g@, root.inner, old(self)@.data, old(self)@.grad)
                &&& self@.data == old(self)@.data
            } by {
                assert(self@ == run(arith, old(self)@, code@));
            }
        }
        done
    }
}

} // verus!
