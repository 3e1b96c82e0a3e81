//! The forward pass: what each node's value is, and the code that computes it.

use vstd::prelude::*;
use crate::scalar::{Arith, Prim, ONE, TWO};
use crate::tape::Instr::{Apply, Load};
use crate::tape::Reg::{Data, First, Second};
use crate::tape::{answers_as, fits, lemma_run_concat, run, Instr, Machine, Regs, Request};
use crate::value::{acyclic, Graph, InnerValue, Operation, Value};

verus! {

/// The exponential of `x`.
pub open spec fn exp_of(arith: Arith, x: u64) -> u64 {
    arith(Prim::Exp, x, x)
}

/// The hyperbolic tangent of `x`: with `e` the exponential of twice `x`, the quotient of
/// `e - 1` and `e + 1`.
pub open spec fn tanh_of(arith: Arith, x: u64) -> u64 {
    let e = exp_of(arith, arith(Prim::Mul, TWO, x));
    arith(Prim::Div, arith(Prim::Sub, e, ONE), arith(Prim::Add, e, ONE))
}

impl InnerValue {
    /// The value of the node, given the values of the nodes before it.
    pub open spec fn evaluate(self, arith: Arith, data: Seq<u64>) -> u64 {
        match self.op {
            None => self.data,
            Some(Operation::Add(a, b)) => arith(Prim::Add, data[a as int], data[b as int]),
            Some(Operation::Mul(a, b)) => arith(Prim::Mul, data[a as int], data[b as int]),
            Some(Operation::Tanh(a)) => tanh_of(arith, data[a as int]),
            Some(Operation::Exp(a)) => exp_of(arith, data[a as int]),
            Some(Operation::Pow(a, n)) => arith(Prim::Pow, data[a as int], n),
        }
    }

    /// The code that stores the value of this node, the node `out`, in its data register.
    pub open spec fn forward_code(self, out: usize) -> Seq<Instr> {
        let dst = Data(out);
        match self.op {
            None => seq![Load { dst, bits: self.data }],
            Some(Operation::Add(a, b)) => seq![
                Apply { prim: Prim::Add, dst, lhs: Data(a), rhs: Data(b) },
            ],
            Some(Operation::Mul(a, b)) => seq![
                Apply { prim: Prim::Mul, dst, lhs: Data(a), rhs: Data(b) },
            ],
            Some(Operation::Tanh(a)) => seq![
                Load { dst: First, bits: TWO },
                Apply { prim: Prim::Mul, dst: First, lhs: First, rhs: Data(a) },
                Apply { prim: Prim::Exp, dst: First, lhs: First, rhs: First },
                Load { dst: Second, bits: ONE },
                Apply { prim: Prim::Sub, dst, lhs: First, rhs: Second },
                Apply { prim: Prim::Add, dst: First, lhs: First, rhs: Second },
                Apply { prim: Prim::Div, dst, lhs: dst, rhs: First },
            ],
            Some(Operation::Exp(a)) => seq![
                Apply { prim: Prim::Exp, dst, lhs: Data(a), rhs: Data(a) },
            ],
            Some(Operation::Pow(a, n)) => seq![
                Load { dst: First, bits: n },
                Apply { prim: Prim::Pow, dst, lhs: Data(a), rhs: First },
            ],
        }
    }

    /// The code that computes the value of this node, the node `out`. Run on a machine that
    /// holds the values of the nodes before `out`, it leaves the value of `out` in its data
    /// register, and changes no other value and no gradient.
    pub fn forward(&self, out: usize) -> (code: Vec<Instr>)
        ensures
            code@ == self.forward_code(out),
            forall|arith: Arith, m: Regs|
                out < m.data.len() && self.below(out) ==> {
                    &&& (#[trigger] run(arith, m, code@)).data == m.data.update(
                        out as int,
                        self.evaluate(arith, m.data.subrange(0, out as int)),
                    )
                    &&& run(arith, m, code@).grad == m.grad
                },
    {
        let dst = Data(out);
        let code = match self.op {
            None => vec![Load { dst, bits: self.data }],
            Some(Operation::Add(a, b)) => vec![
                Apply { prim: Prim::Add, dst, lhs: Data(a), rhs: Data(b) },
            ],
            Some(Operation::Mul(a, b)) => vec![
                Apply { prim: Prim::Mul, dst, lhs: Data(a), rhs: Data(b) },
            ],
            Some(Operation::Tanh(a)) => vec![
                Load { dst: First, bits: TWO },
                Apply { prim: Prim::Mul, dst: First, lhs: First, rhs: Data(a) },
                Apply { prim: Prim::Exp, dst: First, lhs: First, rhs: First },
                Load { dst: Second, bits: ONE },
                Apply { prim: Prim::Sub, dst, lhs: First, rhs: Second },
                Apply { prim: Prim::Add, dst: First, lhs: First, rhs: Second },
                Apply { prim: Prim::Div, dst, lhs: dst, rhs: First },
            ],
            Some(Operation::Exp(a)) => vec![
                Apply { prim: Prim::Exp, dst, lhs: Data(a), rhs: Data(a) },
            ],
            Some(Operation::Pow(a, n)) => vec![
                Load { dst: First, bits: n },
                Apply { prim: Prim::Pow, dst, lhs: Data(a), rhs: First },
            ],
        };
        proof {
            assert(code@ =~= self.forward_code(out));
            assert forall|arith: Arith, m: Regs| out < m.data.len() && self.below(out) implies {
                &&& (#[trigger] run(arith, m, code@)).data == m.data.update(
                    out as int,
                    self.evaluate(arith, m.data.subrange(0, out as int)),
                )
                &&& run(arith, m, code@).grad == m.grad
            } by {
                lemma_forward_node(arith, m, *self, out);
            }
        }
        code
    }
}

/// The values of all nodes, first to last.
pub open spec fn values(arith: Arith, nodes: Seq<InnerValue>) -> Seq<u64>
    decreases nodes.len(),
{
    if nodes.len() == 0 {
        Seq::empty()
    } else {
        let before = values(arith, nodes.drop_last());
        before.push(nodes.last().evaluate(arith, before))
    }
}

/// There is one value for each node.
pub proof fn lemma_values_len(arith: Arith, nodes: Seq<InnerValue>)
    ensures
        values(arith, nodes).len() == nodes.len(),
    decreases nodes.len(),
{
    if nodes.len() > 0 {
        lemma_values_len(arith, nodes.drop_last());
    }
}

/// A node appended to a graph takes its value from the values before it, and changes none of
/// them.
pub proof fn lemma_values_push(arith: Arith, nodes: Seq<InnerValue>, node: InnerValue)
    ensures
        values(arith, nodes).len() == nodes.len(),
        values(arith, nodes.push(node)) == values(arith, nodes).push(
            node.evaluate(arith, values(arith, nodes)),
        ),
{
    lemma_values_len(arith, nodes);
    assert(nodes.push(node).drop_last() =~= nodes);
}

/// Nodes appended to a graph change no value of the graph.
pub proof fn lemma_values_prefix(arith: Arith, nodes: Seq<InnerValue>, more: Seq<InnerValue>)
    ensures
        values(arith, nodes + more).len() == nodes.len() + more.len(),
        values(arith, nodes + more).subrange(0, nodes.len() as int) == values(arith, nodes),
    decreases more.len(),
{
    lemma_values_len(arith, nodes + more);
    lemma_values_len(arith, nodes);
    if more.len() == 0 {
        assert(nodes + more =~= nodes);
        assert(values(arith, nodes).subrange(0, nodes.len() as int) =~= values(arith, nodes));
    } else {
        lemma_values_prefix(arith, nodes, more.drop_last());
        assert((nodes + more).drop_last() =~= nodes + more.drop_last());
        assert(values(arith, nodes + more).subrange(0, nodes.len() as int) =~= values(
            arith,
            nodes + more.drop_last(),
        ).subrange(0, nodes.len() as int));
    }
}

/// The value of the node `v`.
pub open spec fn value_of(arith: Arith, nodes: Seq<InnerValue>, v: Value) -> u64 {
    values(arith, nodes)[v.inner as int]
}

/// Whether every node of `before` has among `after` the value that it has among `before`.
pub open spec fn keeps_values(before: Seq<InnerValue>, after: Seq<InnerValue>) -> bool {
    forall|arith: Arith, v: Value|
        v.inner < before.len() ==> #[trigger] value_of(arith, after, v) == value_of(arith, before, v)
}

/// Nodes appended to a graph leave every node of the graph its value.
pub proof fn lemma_keeps_values(nodes: Seq<InnerValue>, more: Seq<InnerValue>)
    ensures
        keeps_values(nodes, nodes + more),
{
    assert forall|arith: Arith, v: Value| v.inner < nodes.len() implies #[trigger] value_of(
        arith,
        nodes + more,
        v,
    ) == value_of(arith, nodes, v) by {
        lemma_values_prefix(arith, nodes, more);
        assert(values(arith, nodes + more).subrange(0, nodes.len() as int)[v.inner as int] == values(
            arith,
            nodes,
        )[v.inner as int]);
    }
}

/// The values of the nodes `handles`, where `data` holds the values of all nodes.
pub open spec fn lookup(data: Seq<u64>, handles: Seq<Value>) -> Seq<u64> {
    Seq::new(handles.len(), |i: int| data[handles[i].inner as int])
}

/// Nodes that keep their values are looked up alike before and after.
pub proof fn lemma_lookup_kept(
    arith: Arith,
    before: Seq<InnerValue>,
    after: Seq<InnerValue>,
    handles: Seq<Value>,
)
    requires
        keeps_values(before, after),
        forall|i: int| 0 <= i < handles.len() ==> (#[trigger] handles[i]).inner < before.len(),
    ensures
        lookup(values(arith, after), handles) == lookup(values(arith, before), handles),
{
    assert forall|i: int| 0 <= i < handles.len() implies lookup(values(arith, after), handles)[i]
        == lookup(values(arith, before), handles)[i] by {
        assert(value_of(arith, after, handles[i]) == value_of(arith, before, handles[i]));
    }
    assert(lookup(values(arith, after), handles) =~= lookup(values(arith, before), handles));
}

/// The code that computes the values of all nodes, first to last.
pub open spec fn forward_code(nodes: Seq<InnerValue>) -> Seq<Instr>
    decreases nodes.len(),
{
    if nodes.len() == 0 {
        Seq::empty()
    } else {
        forward_code(nodes.drop_last()) + nodes.last().forward_code((nodes.len() - 1) as usize)
    }
}

/// The code of one node computes the node's value from the values before it, and changes no
/// other node's value and no gradient.
pub proof fn lemma_forward_node(arith: Arith, m: Regs, node: InnerValue, out: usize)
    requires
        out < m.data.len(),
        node.below(out),
    ensures
        run(arith, m, node.forward_code(out)).data == m.data.update(
            out as int,
            node.evaluate(arith, m.data.subrange(0, out as int)),
        ),
        run(arith, m, node.forward_code(out)).grad == m.grad,
{
    reveal_with_fuel(run, 8);
    let code = node.forward_code(out);
    let before = m.data.subrange(0, out as int);
    match node.op {
        None => {},
        Some(Operation::Add(a, b)) => {
            assert(node.operands()[0] == a && node.operands()[1] == b);
            assert(before[a as int] == m.data[a as int] && before[b as int] == m.data[b as int]);
        },
        Some(Operation::Mul(a, b)) => {
            assert(node.operands()[0] == a && node.operands()[1] == b);
            assert(before[a as int] == m.data[a as int] && before[b as int] == m.data[b as int]);
        },
        Some(Operation::Tanh(a)) => {
            assert(node.operands()[0] == a);
            assert(before[a as int] == m.data[a as int]);
        },
        Some(Operation::Exp(a)) => {
            assert(node.operands()[0] == a);
            assert(before[a as int] == m.data[a as int]);
        },
        Some(Operation::Pow(a, n)) => {
            assert(node.operands()[0] == a);
            assert(before[a as int] == m.data[a as int]);
        },
    }
    assert(run(arith, m, code).data =~= m.data.update(out as int, node.evaluate(arith, before)));
}

/// The forward code stores every node's value in its data register, and changes no gradient.
pub proof fn lemma_forward(arith: Arith, m: Regs, nodes: Seq<InnerValue>)
    requires
        acyclic(nodes),
        nodes.len() <= m.data.len(),
        nodes.len() <= usize::MAX,
    ensures
        run(arith, m, forward_code(nodes)).data.len() == m.data.len(),
        run(arith, m, forward_code(nodes)).data.subrange(0, nodes.len() as int) == values(arith, nodes),
        run(arith, m, forward_code(nodes)).data.subrange(nodes.len() as int, m.data.len() as int)
            == m.data.subrange(nodes.len() as int, m.data.len() as int),
        run(arith, m, forward_code(nodes)).grad == m.grad,
    decreases nodes.len(),
{
    let n = nodes.len();
    if n > 0 {
        let head = nodes.drop_last();
        let out = (n - 1) as usize;
        assert(acyclic(head)) by {
            assert forall|i: int, k: int| 0 <= i < head.len() && 0 <= k < head[i].operands().len() implies (
            #[trigger] head[i].operands()[k]) < i by {
                assert(head[i] == nodes[i]);
            }
        }
        lemma_forward(arith, m, head);
        let mid = run(arith, m, forward_code(head));
        lemma_run_concat(arith, m, forward_code(head), nodes.last().forward_code(out));
        lemma_forward_node(arith, mid, nodes.last(), out);
        let end = run(arith, m, forward_code(nodes));
        assert(mid.data.subrange(0, out as int) == values(arith, head));
        assert(end.data.subrange(0, n as int) =~= values(arith, nodes));
        assert(end.data.subrange(n as int, m.data.len() as int) =~= m.data.subrange(
            n as int,
            m.data.len() as int,
        )) by {
            assert forall|i: int| n <= i < m.data.len() implies end.data[i] == m.data[i] by {
                assert(mid.data.subrange(out as int, m.data.len() as int)[i - out] == m.data.subrange(
                    out as int,
                    m.data.len() as int,
                )[i - out]);
            }
        }
    } else {
        assert(run(arith, m, forward_code(nodes)).data.subrange(0, 0) =~= values(arith, nodes));
    }
}

impl Graph {
    /// The code of the forward pass. Run on a machine that has registers for every node, it
    /// leaves the value of each node in the node's data register, and changes no gradient.
    pub fn forward(&self) -> (code: Vec<Instr>)
        requires
            self.wf(),
        ensures
            code@ == forward_code(self@),
            fits(code@, self@.len()),
            forall|arith: Arith, m: Regs|
                self@.len() <= m.data.len() ==> (#[trigger] run(arith, m, code@)).data.subrange(
                    0,
                    self@.len() as int,
                ) == values(arith, self@) && run(arith, m, code@).grad == m.grad,
    {
        let n: usize = self.len();
        let mut code: Vec<Instr> = Vec::new();
        let mut i: usize = 0;
        proof {
            assert(self@.subrange(0, 0) =~= Seq::<InnerValue>::empty());
        }
        while i < n
            invariant
                self.wf(),
                n == self@.len(),
                i <= n,
                code@ == forward_code(self@.subrange(0, i as int)),
                fits(code@, n as nat),
            decreases n - i,
        {
            let node = self.node(Value { inner: i });
            let mut piece = node.forward(i);
            proof {
                let next = self@.subrange(0, i + 1);
                assert(next.drop_last() =~= self@.subrange(0, i as int));
                assert(next.last() == node);
                assert(forall|k: int| 0 <= k < node.operands().len() ==> (#[trigger] node.operands()[k]) < i);
                assert(fits(piece@, n as nat)) by {
                    assert forall|j: int| 0 <= j < piece@.len() implies (#[trigger] piece@[j]).within(
                        n as nat,
                    ) by {
                        match node.op {
                            None => {},
                            Some(Operation::Add(a, b)) => {
                                assert(node.operands()[0] == a && node.operands()[1] == b);
                            },
                            Some(Operation::Mul(a, b)) => {
                                assert(node.operands()[0] == a && node.operands()[1] == b);
                            },
                            Some(Operation::Tanh(a)) => {
                                assert(node.operands()[0] == a);
                            },
                            Some(Operation::Exp(a)) => {
                                assert(node.operands()[0] == a);
                            },
                            Some(Operation::Pow(a, n)) => {
                                assert(node.operands()[0] == a);
                            },
                        }
                    }
                }
            }
            code.append(&mut piece);
            i = i + 1;
        }
        proof {
            assert(self@.subrange(0, n as int) =~= self@);
            assert forall|arith: Arith, m: Regs| self@.len() <= m.data.len() implies (#[trigger] run(
                arith,
                m,
                code@,
            )).data.subrange(0, self@.len() as int) == values(arith, self@) && run(arith, m, code@).grad
                == m.grad by {
                lemma_forward(arith, m, self@);
            }
        }
        code
    }
}

impl Machine {
    /// Runs the forward pass of `g`, with `host` to answer the requests, if the machine has
    /// registers for every node of `g`; else the machine stays as it is. Says which of the two
    /// it was. After the pass the data registers of the nodes of `g` hold their values; no
    /// other data register and no gradient has changed.
    pub fn evaluate<F: Fn(Request) -> u64>(&mut self, g: &Graph, host: F) -> (done: bool)
        requires
            g.wf(),
            forall|q: Request| host.requires((q,)),
        ensures
            done == old(self)@.holds(g@.len()),
            !done ==> final(self)@ == old(self)@,
            final(self)@.data.len() == old(self)@.data.len(),
            final(self)@.grad.len() == old(self)@.grad.len(),
            done ==> forall|arith: Arith| #[trigger]
                answers_as(host, arith) ==> {
                    &&& final(self)@.data.subrange(0, g@.len() as int) == values(arith, g@)
                    &&& final(self)@.data.subrange(g@.len() as int, old(self)@.data.len() as int)
                        == old(self)@.data.subrange(g@.len() as int, old(self)@.data.len() as int)
                    &&& final(self)@.grad == old(self)@.grad
                },
    {
        if !self.holds(g.len()) {
            return false;
        }
        let code = g.forward();
        let done = self.execute(code.as_slice(), host);
        proof {
            assert forall|j: int| 0 <= j < code@.len() implies old(self)@.fits(#[trigger] code@[j]) by {
                assert(code@[j].within(g@.len()));
            }
            assert forall|arith: Arith| #[trigger] answers_as(host, arith) implies {
                &&& self@.data.len() == old(self)@.data.len()
                &&& self@.data.subrange(0, g@.len() as int) == values(arith, g@)
                &&& self@.data.subrange(g@.len() as int, old(self)@.data.len() as int)
                    == old(self)@.data.subrange(g@.len() as int, old(self)@.data.len() as int)
                &&& self@.grad == old(self)@.grad
            } by {
                assert(self@ == run(arith, old(self)@, code@));
                lemma_forward(arith, old(self)@, g@);
            }
        }
        done
    }
}

} // verus!
