//! A neuron: a weighted sum of its inputs and a bias, squashed by the hyperbolic tangent.

use vstd::prelude::*;
use crate::forward::{
    keeps_values, lemma_keeps_values, lemma_lookup_kept, lemma_values_prefix, lemma_values_push, lookup,
    tanh_of, value_of, values,
};
use crate::random::{is_weight, random_weight};
use crate::scalar::{Arith, Prim};
use crate::value::{Graph, InnerValue, Operation, Value};

verus! {

/// The leaves that hold the scalars of `init`, in their order.
pub open spec fn leaves(init: Seq<u64>) -> Seq<InnerValue> {
    Seq::new(init.len(), |i: int| InnerValue::leaf(init[i]))
}

/// Whether `after` is `before` and then `count` new leaves, each of which holds a weight that may
/// be drawn.
pub open spec fn grown_by_weights(before: Seq<InnerValue>, after: Seq<InnerValue>, count: nat) -> bool {
    &&& after.len() == before.len() + count
    &&& after.subrange(0, before.len() as int) == before
    &&& forall|i: int|
        before.len() <= i < after.len() ==> (#[trigger] after[i]).op is None && is_weight(after[i].data)
}

/// Weights drawn one time after another add up.
pub proof fn lemma_grown_again(
    first: Seq<InnerValue>,
    second: Seq<InnerValue>,
    third: Seq<InnerValue>,
    count: nat,
    more: nat,
)
    requires
        grown_by_weights(first, second, count),
        grown_by_weights(second, third, more),
    ensures
        grown_by_weights(first, third, count + more),
{
    assert(third.subrange(0, first.len() as int) =~= first) by {
        assert forall|i: int| 0 <= i < first.len() implies third[i] == first[i] by {
            assert(third.subrange(0, second.len() as int)[i] == second[i]);
            assert(second.subrange(0, first.len() as int)[i] == first[i]);
        }
    }
    assert forall|i: int| first.len() <= i < third.len() implies (#[trigger] third[i]).op is None
        && is_weight(third[i].data) by {
        if i < second.len() {
            assert(third.subrange(0, second.len() as int)[i] == second[i]);
        }
    }
}

/// The bias plus the products of the first `k` inputs with their weights, added one after the
/// other.
pub open spec fn weighted_sum(arith: Arith, weights: Seq<u64>, bias: u64, x: Seq<u64>, k: nat) -> u64
    decreases k,
{
    if k == 0 {
        bias
    } else {
        arith(
            Prim::Add,
            weighted_sum(arith, weights, bias, x, (k - 1) as nat),
            arith(Prim::Mul, weights[k - 1], x[k - 1]),
        )
    }
}

/// What a neuron with these weights and this bias makes of the inputs `x`: the hyperbolic
/// tangent of the weighted sum over the inputs that have a weight.
pub open spec fn neuron_output(arith: Arith, weights: Seq<u64>, bias: u64, x: Seq<u64>) -> u64 {
    let m = if weights.len() <= x.len() {
        weights.len()
    } else {
        x.len()
    };
    tanh_of(arith, weighted_sum(arith, weights, bias, x, m))
}

/// A neuron, by the handles of its parameters.
pub struct Neuron {
    weights: Vec<Value>,
    bias: Value,
}

/// The parameters of a neuron.
pub struct NeuronView {
    pub weights: Seq<Value>,
    pub bias: Value,
}

impl View for Neuron {
    type V = NeuronView;

    closed spec fn view(&self) -> NeuronView {
        NeuronView { weights: self.weights@, bias: self.bias }
    }
}

impl NeuronView {
    /// The neuron whose `n_inputs` weights and whose bias are the nodes from `base` on.
    pub open spec fn placed(base: nat, n_inputs: nat) -> NeuronView {
        NeuronView {
            weights: Seq::new(n_inputs, |i: int| Value { inner: (base + i) as usize }),
            bias: Value { inner: (base + n_inputs) as usize },
        }
    }

    /// Whether every parameter is one of the first `len` nodes.
    pub open spec fn within(self, len: nat) -> bool {
        &&& self.bias.inner < len
        &&& forall|i: int| 0 <= i < self.weights.len() ==> (#[trigger] self.weights[i]).inner < len
    }

    /// What the neuron makes of the inputs `x`, where `data` holds the values of all nodes.
    pub open spec fn output(self, arith: Arith, data: Seq<u64>, x: Seq<u64>) -> u64 {
        neuron_output(arith, lookup(data, self.weights), data[self.bias.inner as int], x)
    }

    /// The number of inputs that the neuron weighs, of those in `x`: all that have a weight.
    pub open spec fn fan_in(self, x: Seq<Value>) -> nat {
        if self.weights.len() <= x.len() {
            self.weights.len()
        } else {
            x.len()
        }
    }

    /// The running sum after `k` inputs, in a graph that had `base` nodes before the call: the
    /// bias, or the sum that the `k`-th input was added to.
    pub open spec fn partial_sum(self, base: nat, k: nat) -> usize {
        if k == 0 {
            self.bias.inner
        } else {
            (base + 2 * k - 1) as usize
        }
    }

    /// The nodes that a call on the inputs `x` appends to a graph of `base` nodes: for each
    /// input in turn the product with its weight and the sum of the running sum and that
    /// product, and last the hyperbolic tangent of the final sum.
    pub open spec fn call_nodes(self, base: nat, x: Seq<Value>) -> Seq<InnerValue> {
        let m = self.fan_in(x);
        Seq::new(
            2 * m + 1,
            |j: int|
                if j == 2 * m {
                    InnerValue::computed(Operation::Tanh(self.partial_sum(base, m)))
                } else if j % 2 == 0 {
                    InnerValue::computed(Operation::Mul(self.weights[j / 2].inner, x[j / 2].inner))
                } else {
                    InnerValue::computed(
                        Operation::Add(self.partial_sum(base, (j / 2) as nat), (base + j - 1) as usize),
                    )
                },
        )
    }
}

/// The nodes of a neuron's call compute the weighted sum input by input and then its
/// hyperbolic tangent, and change no value of the graph.
pub proof fn lemma_call_values(
    arith: Arith,
    nodes: Seq<InnerValue>,
    neuron: NeuronView,
    x: Seq<Value>,
    k: nat,
)
    requires
        neuron.within(nodes.len()),
        forall|i: int| 0 <= i < x.len() ==> (#[trigger] x[i]).inner < nodes.len(),
        nodes.len() + 2 * neuron.fan_in(x) + 1 <= usize::MAX,
        k <= neuron.fan_in(x),
    ensures
        ({
            let grown = values(arith, nodes + neuron.call_nodes(nodes.len(), x).subrange(0, 2 * (k as int)));
            let data = values(arith, nodes);
            &&& grown.len() == nodes.len() + 2 * k
            &&& grown.subrange(0, nodes.len() as int) == data
            &&& grown[neuron.partial_sum(nodes.len(), k) as int] == weighted_sum(
                arith,
                lookup(data, neuron.weights),
                data[neuron.bias.inner as int],
                lookup(data, x),
                k,
            )
        }),
        k == neuron.fan_in(x) ==> values(arith, nodes + neuron.call_nodes(nodes.len(), x)).last()
            == neuron.output(arith, values(arith, nodes), lookup(values(arith, nodes), x)),
    decreases k,
{
    let base = nodes.len();
    let block = neuron.call_nodes(base, x);
    let data = values(arith, nodes);
    let now = nodes + block.subrange(0, 2 * (k as int));
    lemma_values_prefix(arith, nodes, block.subrange(0, 2 * (k as int)));
    if k > 0 {
        let j = k - 1;
        lemma_call_values(arith, nodes, neuron, x, j as nat);
        let before = nodes + block.subrange(0, 2 * j);
        let old_values = values(arith, before);
        let product = block[2 * j];
        let sum = block[2 * j + 1];
        lemma_values_push(arith, before, product);
        lemma_values_push(arith, before.push(product), sum);
        assert(now =~= before.push(product).push(sum));
        let kept = old_values.subrange(0, base as int);
        assert(old_values[neuron.weights[j].inner as int] == kept[neuron.weights[j].inner as int]);
        assert(old_values[x[j].inner as int] == kept[x[j].inner as int]);
        if j == 0 {
            assert(old_values[neuron.bias.inner as int] == kept[neuron.bias.inner as int]);
        }
    } else {
        let kept = values(arith, now).subrange(0, base as int);
        assert(values(arith, now)[neuron.bias.inner as int] == kept[neuron.bias.inner as int]);
    }
    if k == neuron.fan_in(x) {
        let last = block[2 * (k as int)];
        lemma_values_push(arith, now, last);
        assert(nodes + block =~= now.push(last));
    }
}

/// A neuron whose parameters keep their values makes the same of its inputs before and after.
pub proof fn lemma_output_kept(
    arith: Arith,
    before: Seq<InnerValue>,
    after: Seq<InnerValue>,
    neuron: NeuronView,
    x: Seq<u64>,
)
    requires
        keeps_values(before, after),
        neuron.within(before.len()),
    ensures
        neuron.output(arith, values(arith, after), x) == neuron.output(arith, values(arith, before), x),
{
    lemma_lookup_kept(arith, before, after, neuron.weights);
    assert(value_of(arith, after, neuron.bias) == value_of(arith, before, neuron.bias));
}

impl Neuron {
    /// A neuron with `n_inputs` weights, read from `init` at `start`, and a bias, read after
    /// them: each becomes a new leaf.
    pub(crate) fn read(g: &mut Graph, n_inputs: usize, init: &[u64], start: usize) -> (neuron: Neuron)
        requires
            old(g).wf(),
            start + n_inputs + 1 <= init@.len(),
        ensures
            final(g).wf(),
            final(g)@ == old(g)@ + leaves(init@.subrange(start as int, start + n_inputs + 1)),
            neuron@ == NeuronView::placed(old(g)@.len(), n_inputs as nat),
            keeps_values(old(g)@, final(g)@),
    {
        let ghost base = g@.len();
        let total: usize = init.len();
        let mut weights: Vec<Value> = Vec::new();
        let mut i: usize = 0;
        while i < n_inputs
            invariant
                i <= n_inputs,
                start + n_inputs + 1 <= init@.len(),
                init@.len() == total,
                g.wf(),
                g@.len() == base + i,
                g@ == old(g)@ + leaves(init@.subrange(start as int, start + i)),
                weights@.len() == i,
                forall|j: int| 0 <= j < i ==> (#[trigger] weights@[j]).inner == base + j,
            decreases n_inputs - i,
        {
            let w = Value::new(g, init[start + i]);
            weights.push(w);
            proof {
                assert(g@ =~= old(g)@ + leaves(init@.subrange(start as int, start + i + 1)));
            }
            i = i + 1;
        }
        let bias = Value::new(g, init[start + n_inputs]);
        proof {
            assert(g@ =~= old(g)@ + leaves(init@.subrange(start as int, start + n_inputs + 1)));
            assert(weights@ =~= NeuronView::placed(base, n_inputs as nat).weights);
            lemma_keeps_values(old(g)@, leaves(init@.subrange(start as int, start + n_inputs + 1)));
        }
        Neuron { weights, bias }
    }

    /// A neuron with `n_inputs` inputs. Its weights and then its bias become new leaves, each
    /// with a weight drawn from `rng`.
    pub fn new(g: &mut Graph, n_inputs: usize, rng: &mut rand::rngs::StdRng) -> (neuron: Neuron)
        requires
            old(g).wf(),
        ensures
            final(g).wf(),
            grown_by_weights(old(g)@, final(g)@, (n_inputs + 1) as nat),
            neuron@ == NeuronView::placed(old(g)@.len(), n_inputs as nat),
            keeps_values(old(g)@, final(g)@),
    {
        let ghost base = g@.len();
        let mut weights: Vec<Value> = Vec::new();
        let mut i: usize = 0;
        proof {
            assert(g@.subrange(0, base as int) =~= old(g)@);
        }
        while i < n_inputs
            invariant
                i <= n_inputs,
                base == old(g)@.len(),
                g.wf(),
                grown_by_weights(old(g)@, g@, i as nat),
                keeps_values(old(g)@, g@),
                weights@.len() == i,
                forall|j: int| 0 <= j < i ==> (#[trigger] weights@[j]).inner == base + j,
            decreases n_inputs - i,
        {
            let ghost before = g@;
            let w = Value::new(g, random_weight(rng));
            weights.push(w);
            proof {
                assert(g@.subrange(0, before.len() as int) =~= before);
                lemma_grown_again(old(g)@, before, g@, i as nat, 1);
            }
            i = i + 1;
        }
        let ghost before = g@;
        let bias = Value::new(g, random_weight(rng));
        proof {
            assert(g@.subrange(0, before.len() as int) =~= before);
            lemma_grown_again(old(g)@, before, g@, n_inputs as nat, 1);
            assert(weights@ =~= NeuronView::placed(base, n_inputs as nat).weights);
        }
        Neuron { weights, bias }
    }

    /// A neuron with `n_inputs` inputs. Its weights and then its bias become new leaves that
    /// hold the scalars of `init`, which has to be as many as there are parameters.
    pub fn with_parameters(g: &mut Graph, n_inputs: usize, init: &[u64]) -> (made: Option<Neuron>)
        requires
            old(g).wf(),
        ensures
            final(g).wf(),
            made is Some <==> init@.len() == n_inputs + 1,
            made is Some ==> final(g)@ == old(g)@ + leaves(init@) && made->0@ == NeuronView::placed(
                old(g)@.len(),
                n_inputs as nat,
            ),
            made is None ==> final(g)@ == old(g)@,
            keeps_values(old(g)@, final(g)@),
    {
        let total: usize = init.len();
        if n_inputs == usize::MAX || total != n_inputs + 1 {
            return None;
        }
        let neuron = Neuron::read(g, n_inputs, init, 0);
        proof {
            assert(init@.subrange(0, n_inputs + 1) =~= init@);
        }
        Some(neuron)
    }

    /// The neuron's output for the inputs `x`, as a new node: the hyperbolic tangent of the
    /// bias plus the products of the inputs with their weights. Inputs beyond the last weight
    /// are left out, as are weights beyond the last input.
    pub fn call(&self, g: &mut Graph, x: &[Value]) -> (out: Value)
        requires
            old(g).wf(),
            self@.within(old(g)@.len()),
            forall|i: int| 0 <= i < x@.len() ==> old(g).holds(#[trigger] x@[i]),
        ensures
            final(g).wf(),
            final(g)@ == old(g)@ + self@.call_nodes(old(g)@.len(), x@),
            out.inner == final(g)@.len() - 1,
            keeps_values(old(g)@, final(g)@),
            forall|arith: Arith| #[trigger]
                value_of(arith, final(g)@, out) == self@.output(
                    arith,
                    values(arith, old(g)@),
                    lookup(values(arith, old(g)@), x@),
                ),
    {
        let ghost base = g@.len();
        let m: usize = if self.weights.len() <= x.len() {
            self.weights.len()
        } else {
            x.len()
        };
        let mut act = self.bias;
        let mut k: usize = 0;
        while k < m
            invariant
                k <= m,
                m == self@.fan_in(x@),
                base == old(g)@.len(),
                g.wf(),
                self@.within(base),
                forall|i: int| 0 <= i < x@.len() ==> (#[trigger] x@[i]).inner < base,
                g@.len() == base + 2 * k,
                g@ == old(g)@ + self@.call_nodes(base, x@).subrange(0, 2 * k),
                act.inner == self@.partial_sum(base, k as nat),
            decreases m - k,
        {
            let w = self.weights[k];
            let xi = x[k];
            assert(w == self@.weights[k as int]);
            assert(g.holds(w) && g.holds(xi));
            let product = w.mul(g, xi);
            assert(g.holds(act));
            let sum = act.add(g, product);
            proof {
                let nodes = self@.call_nodes(base, x@);
                assert(nodes[2 * k] == InnerValue::computed(Operation::Mul(w.inner, xi.inner)));
                assert(nodes[2 * k + 1] == InnerValue::computed(Operation::Add(act.inner, product.inner)));
                assert(g@ =~= old(g)@ + nodes.subrange(0, 2 * k + 2));
            }
            act = sum;
            k = k + 1;
        }
        assert(g.holds(act));
        let out = act.tanh(g);
        let total: usize = g.len();
        proof {
            let nodes = self@.call_nodes(base, x@);
            assert(nodes[2 * m] == InnerValue::computed(Operation::Tanh(act.inner)));
            assert(g@ =~= old(g)@ + nodes);
            lemma_keeps_values(old(g)@, nodes);
            assert forall|arith: Arith| #[trigger]
                value_of(arith, g@, out) == self@.output(
                    arith,
                    values(arith, old(g)@),
                    lookup(values(arith, old(g)@), x@),
                ) by {
                lemma_call_values(arith, old(g)@, self@, x@, m as nat);
            }
        }
        out
    }

    /// Tells whether every parameter is a node of `g`.
    pub fn within(&self, g: &Graph) -> (ok: bool)
        ensures
            ok == self@.within(g@.len()),
    {
        if !g.has(self.bias) {
            return false;
        }
        let mut i: usize = 0;
        while i < self.weights.len()
            invariant
                i <= self.weights@.len(),
                self@.bias.inner < g@.len(),
                forall|j: int| 0 <= j < i ==> (#[trigger] self@.weights[j]).inner < g@.len(),
            decreases self.weights@.len() - i,
        {
            if !g.has(self.weights[i]) {
                assert(!(self@.weights[i as int].inner < g@.len()));
                return false;
            }
            i = i + 1;
        }
        true
    }

    /// The parameters: the weights in their order, then the bias.
    pub fn parameters(&self) -> (all: Vec<Value>)
        ensures
            all@ == self@.weights.push(self@.bias),
    {
        let mut all: Vec<Value> = Vec::new();
        let mut i: usize = 0;
        while i < self.weights.len()
            invariant
                i <= self.weights@.len(),
                all@ == self.weights@.subrange(0, i as int),
            decreases self.weights@.len() - i,
        {
            all.push(self.weights[i]);
            proof {
                assert(all@ =~= self.weights@.subrange(0, i + 1));
            }
            i = i + 1;
        }
        all.push(self.bias);
        proof {
            assert(all@ =~= self@.weights.push(self@.bias));
        }
        all
    }
}

} // verus!
