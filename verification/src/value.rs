//! The computation graph: nodes, the operations that produce them, and handles to them.

use vstd::prelude::*;
use crate::forward::{
    exp_of, keeps_values, lemma_keeps_values, lemma_values_push, tanh_of, value_of, values,
};
use crate::scalar::{Arith, Prim, MINUS_ONE};

verus! {

/// How a node was computed, by the indices of its operands.
#[derive(Clone, Copy, Debug, PartialEq, Eq)]
pub enum Operation {
    /// The sum of two nodes.
    Add(usize, usize),
    /// The product of two nodes.
    Mul(usize, usize),
    /// The hyperbolic tangent of a node.
    Tanh(usize),
    /// The exponential of a node.
    Exp(usize),
    /// A node raised to a fixed exponent, given by its bit pattern.
    Pow(usize, u64),
}

impl Operation {
    /// The operands, in the order in which the operation names them.
    pub open spec fn operands(self) -> Seq<usize> {
        match self {
            Operation::Add(a, b) => seq![a, b],
            Operation::Mul(a, b) => seq![a, b],
            Operation::Tanh(a) => seq![a],
            Operation::Exp(a) => seq![a],
            Operation::Pow(a, _) => seq![a],
        }
    }

    /// Whether every operand stands before the node `out`.
    pub open spec fn below(self, out: usize) -> bool {
        forall|k: int| 0 <= k < self.operands().len() ==> (#[trigger] self.operands()[k]) < out
    }
}

/// One node of the graph.
#[derive(Clone, Copy, Debug, PartialEq, Eq)]
pub struct InnerValue {
    /// The value of a leaf; zero for a computed node, whose value the forward code yields.
    pub data: u64,
    /// The operation that produced the node; `None` for a leaf.
    pub op: Option<Operation>,
}

impl InnerValue {
    /// A leaf that holds `data`.
    pub open spec fn leaf(data: u64) -> InnerValue {
        InnerValue { data, op: None }
    }

    /// A node computed by `op`.
    pub open spec fn computed(op: Operation) -> InnerValue {
        InnerValue { data: 0, op: Some(op) }
    }

    /// The operands of the node; none for a leaf.
    pub open spec fn operands(self) -> Seq<usize> {
        match self.op {
            Some(op) => op.operands(),
            None => seq![],
        }
    }

    /// Whether every operand stands before the node `out`.
    pub open spec fn below(self, out: usize) -> bool {
        forall|k: int| 0 <= k < self.operands().len() ==> (#[trigger] self.operands()[k]) < out
    }

    /// The number of operands.
    pub fn arity(&self) -> (n: usize)
        ensures
            n == self.operands().len(),
            n <= 2,
    {
        match self.op {
            Some(Operation::Add(_, _)) => 2,
            Some(Operation::Mul(_, _)) => 2,
            Some(Operation::Tanh(_)) => 1,
            Some(Operation::Exp(_)) => 1,
            Some(Operation::Pow(_, _)) => 1,
            None => 0,
        }
    }

    /// The `k`-th operand.
    pub fn operand(&self, k: usize) -> (c: usize)
        requires
            k < self.operands().len(),
        ensures
            c == self.operands()[k as int],
    {
        match self.op {
            Some(Operation::Add(a, b)) => if k == 0 { a } else { b },
            Some(Operation::Mul(a, b)) => if k == 0 { a } else { b },
            Some(Operation::Tanh(a)) => a,
            Some(Operation::Exp(a)) => a,
            Some(Operation::Pow(a, _)) => a,
            None => 0,
        }
    }
}

/// Every operand of every node stands before the node: the graph has no cycle.
pub open spec fn acyclic(nodes: Seq<InnerValue>) -> bool {
    forall|i: int, k: int|
        0 <= i < nodes.len() && 0 <= k < nodes[i].operands().len() ==> (
        #[trigger] nodes[i].operands()[k]) < i
}

/// An arena of nodes. A node is named by its index, and nodes are only ever appended.
pub struct Graph {
    nodes: Vec<InnerValue>,
}

impl View for Graph {
    type V = Seq<InnerValue>;

    closed spec fn view(&self) -> Seq<InnerValue> {
        self.nodes@
    }
}

/// A handle to a node of a graph.
#[derive(Clone, Copy, Debug, PartialEq, Eq)]
pub struct Value {
    /// The index of the node.
    pub inner: usize,
}

impl Graph {
    /// The graph invariant.
    pub open spec fn wf(&self) -> bool {
        acyclic(self@)
    }

    /// Whether `v` names a node of this graph.
    pub open spec fn holds(&self, v: Value) -> bool {
        v.inner < self@.len()
    }

    /// An empty graph.
    pub fn new() -> (g: Graph)
        ensures
            g.wf(),
            g@ == Seq::<InnerValue>::empty(),
    {
        Graph { nodes: Vec::new() }
    }

    /// The number of nodes.
    pub fn len(&self) -> (n: usize)
        ensures
            n == self@.len(),
    {
        self.nodes.len()
    }

    /// Tells whether `v` names a node of this graph.
    pub fn has(&self, v: Value) -> (ok: bool)
        ensures
            ok == self.holds(v),
    {
        v.inner < self.nodes.len()
    }

    /// The node that `v` names.
    pub fn node(&self, v: Value) -> (n: InnerValue)
        requires
            self.holds(v),
        ensures
            n == self@[v.inner as int],
    {
        self.nodes[v.inner]
    }

    /// Stores `data` in the node `v` if it is a leaf, and says whether it is one.
    fn store(&mut self, v: Value, data: u64) -> (done: bool)
        requires
            old(self).wf(),
            old(self).holds(v),
        ensures
            final(self).wf(),
            done == (old(self)@[v.inner as int].op is None),
            final(self)@ == if done {
                old(self)@.update(v.inner as int, InnerValue::leaf(data))
            } else {
                old(self)@
            },
    {
        match self.nodes[v.inner].op {
            None => {
                self.nodes.set(v.inner, InnerValue { data, op: None });
                proof {
                    assert forall|i: int, k: int|
                        0 <= i < self@.len() && 0 <= k < self@[i].operands().len() implies (
                    #[trigger] self@[i].operands()[k]) < i by {
                        assert(self@[i] == old(self)@[i]);
                    }
                }
                true
            },
            Some(_) => false,
        }
    }

    /// Appends a node whose operands are already in the graph.
    fn push(&mut self, node: InnerValue) -> (out: Value)
        requires
            old(self).wf(),
            forall|k: int|
                0 <= k < node.operands().len() ==> (#[trigger] node.operands()[k]) < old(self)@.len(),
        ensures
            final(self).wf(),
            final(self)@ == old(self)@.push(node),
            out.inner == old(self)@.len(),
            keeps_values(old(self)@, final(self)@),
            forall|arith: Arith| #[trigger]
                value_of(arith, final(self)@, out) == node.evaluate(arith, values(arith, old(self)@)),
    {
        let out = Value { inner: self.nodes.len() };
        self.nodes.push(node);
        proof {
            lemma_keeps_values(old(self)@, seq![node]);
            assert(self@ =~= old(self)@ + seq![node]);
            assert forall|arith: Arith| #[trigger]
                value_of(arith, self@, out) == node.evaluate(arith, values(arith, old(self)@)) by {
                lemma_values_push(arith, old(self)@, node);
            }
        }
        out
    }
}

impl Value {
    /// A new leaf that holds `data`.
    pub fn new(g: &mut Graph, data: u64) -> (out: Value)
        requires
            old(g).wf(),
        ensures
            final(g).wf(),
            final(g)@ == old(g)@.push(InnerValue::leaf(data)),
            out.inner == old(g)@.len(),
            keeps_values(old(g)@, final(g)@),
            forall|arith: Arith| #[trigger] value_of(arith, final(g)@, out) == data,
    {
        g.push(InnerValue { data, op: None })
    }

    /// Stores `data` in the node if it is a leaf, and says whether it is one. The value of a
    /// computed node is not stored but computed, and stays as it is.
    pub fn set_data(self, g: &mut Graph, data: u64) -> (done: bool)
        requires
            old(g).wf(),
            old(g).holds(self),
        ensures
            final(g).wf(),
            done == (old(g)@[self.inner as int].op is None),
            final(g)@ == if done {
                old(g)@.update(self.inner as int, InnerValue::leaf(data))
            } else {
                old(g)@
            },
    {
        g.store(self, data)
    }

    /// The sum of `self` and `rhs`, as a new node.
    pub fn add(self, g: &mut Graph, rhs: Value) -> (out: Value)
        requires
            old(g).wf(),
            old(g).holds(self),
            old(g).holds(rhs),
        ensures
            final(g).wf(),
            final(g)@ == old(g)@.push(InnerValue::computed(Operation::Add(self.inner, rhs.inner))),
            out.inner == old(g)@.len(),
            keeps_values(old(g)@, final(g)@),
            forall|arith: Arith| #[trigger]
                value_of(arith, final(g)@, out) == arith(
                    Prim::Add,
                    value_of(arith, old(g)@, self),
                    value_of(arith, old(g)@, rhs),
                ),
    {
        g.push(InnerValue { data: 0, op: Some(Operation::Add(self.inner, rhs.inner)) })
    }

    /// The product of `self` and `rhs`, as a new node.
    pub fn mul(self, g: &mut Graph, rhs: Value) -> (out: Value)
        requires
            old(g).wf(),
            old(g).holds(self),
            old(g).holds(rhs),
        ensures
            final(g).wf(),
            final(g)@ == old(g)@.push(InnerValue::computed(Operation::Mul(self.inner, rhs.inner))),
            out.inner == old(g)@.len(),
            keeps_values(old(g)@, final(g)@),
            forall|arith: Arith| #[trigger]
                value_of(arith, final(g)@, out) == arith(
                    Prim::Mul,
                    value_of(arith, old(g)@, self),
                    value_of(arith, old(g)@, rhs),
                ),
    {
        g.push(InnerValue { data: 0, op: Some(Operation::Mul(self.inner, rhs.inner)) })
    }

    /// The hyperbolic tangent of `self`, as a new node.
    pub fn tanh(self, g: &mut Graph) -> (out: Value)
        requires
            old(g).wf(),
            old(g).holds(self),
        ensures
            final(g).wf(),
            final(g)@ == old(g)@.push(InnerValue::computed(Operation::Tanh(self.inner))),
            out.inner == old(g)@.len(),
            keeps_values(old(g)@, final(g)@),
            forall|arith: Arith| #[trigger]
                value_of(arith, final(g)@, out) == tanh_of(arith, value_of(arith, old(g)@, self)),
    {
        g.push(InnerValue { data: 0, op: Some(Operation::Tanh(self.inner)) })
    }

    /// The exponential of `self`, as a new node.
    pub fn exp(self, g: &mut Graph) -> (out: Value)
        requires
            old(g).wf(),
            old(g).holds(self),
        ensures
            final(g).wf(),
            final(g)@ == old(g)@.push(InnerValue::computed(Operation::Exp(self.inner))),
            out.inner == old(g)@.len(),
            keeps_values(old(g)@, final(g)@),
            forall|arith: Arith| #[trigger]
                value_of(arith, final(g)@, out) == exp_of(arith, value_of(arith, old(g)@, self)),
    {
        g.push(InnerValue { data: 0, op: Some(Operation::Exp(self.inner)) })
    }

    /// `self` raised to the exponent whose bit pattern is `n`, as a new node.
    pub fn powf(self, g: &mut Graph, n: u64) -> (out: Value)
        requires
            old(g).wf(),
            old(g).holds(self),
        ensures
            final(g).wf(),
            final(g)@ == old(g)@.push(InnerValue::computed(Operation::Pow(self.inner, n))),
            out.inner == old(g)@.len(),
            keeps_values(old(g)@, final(g)@),
            forall|arith: Arith| #[trigger]
                value_of(arith, final(g)@, out) == arith(Prim::Pow, value_of(arith, old(g)@, self), n),
    {
        g.push(InnerValue { data: 0, op: Some(Operation::Pow(self.inner, n)) })
    }

    /// The negation of `self`: its product with a new leaf that holds minus one.
    pub fn neg(self, g: &mut Graph) -> (out: Value)
        requires
            old(g).wf(),
            old(g).holds(self),
        ensures
            final(g).wf(),
            final(g)@ == old(g)@.push(InnerValue::leaf(MINUS_ONE)).push(
                InnerValue::computed(Operation::Mul(self.inner, old(g)@.len() as usize)),
            ),
            out.inner == old(g)@.len() + 1,
            keeps_values(old(g)@, final(g)@),
            forall|arith: Arith| #[trigger]
                value_of(arith, final(g)@, out) == arith(
                    Prim::Mul,
                    value_of(arith, old(g)@, self),
                    MINUS_ONE,
                ),
    {
        let minus_one = Value::new(g, MINUS_ONE);
        self.mul(g, minus_one)
    }

    /// The difference of `self` and `rhs`: the sum of `self` and the negation of `rhs`.
    pub fn sub(self, g: &mut Graph, rhs: Value) -> (out: Value)
        requires
            old(g).wf(),
            old(g).holds(self),
            old(g).holds(rhs),
        ensures
            final(g).wf(),
            final(g)@ == old(g)@.push(InnerValue::leaf(MINUS_ONE)).push(
                InnerValue::computed(Operation::Mul(rhs.inner, old(g)@.len() as usize)),
            ).push(
                InnerValue::computed(Operation::Add(self.inner, (old(g)@.len() + 1) as usize)),
            ),
            out.inner == old(g)@.len() + 2,
            keeps_values(old(g)@, final(g)@),
            forall|arith: Arith| #[trigger]
                value_of(arith, final(g)@, out) == arith(
                    Prim::Add,
                    value_of(arith, old(g)@, self),
                    arith(Prim::Mul, value_of(arith, old(g)@, rhs), MINUS_ONE),
                ),
    {
        let negated = rhs.neg(g);
        self.add(g, negated)
    }

    /// The quotient of `self` and `rhs`: the product of `self` and `rhs` raised to minus one.
    pub fn div(self, g: &mut Graph, rhs: Value) -> (out: Value)
        requires
            old(g).wf(),
            old(g).holds(self),
            old(g).holds(rhs),
        ensures
            final(g).wf(),
            final(g)@ == old(g)@.push(InnerValue::computed(Operation::Pow(rhs.inner, MINUS_ONE))).push(
                InnerValue::computed(Operation::Mul(self.inner, old(g)@.len() as usize)),
            ),
            out.inner == old(g)@.len() + 1,
            keeps_values(old(g)@, final(g)@),
            forall|arith: Arith| #[trigger]
                value_of(arith, final(g)@, out) == arith(
                    Prim::Mul,
                    value_of(arith, old(g)@, self),
                    arith(Prim::Pow, value_of(arith, old(g)@, rhs), MINUS_ONE),
                ),
    {
        let inverse = rhs.powf(g, MINUS_ONE);
        self.mul(g, inverse)
    }
}

} // verus!
