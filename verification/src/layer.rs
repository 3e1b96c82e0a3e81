//! A layer: neurons that read the same inputs.

use vstd::prelude::*;
use crate::forward::{keeps_values, lemma_keeps_values, lemma_lookup_kept, lookup, value_of, values};
use crate::neuron::{
    grown_by_weights, leaves, lemma_grown_again, lemma_output_kept, Neuron, NeuronView,
};
use crate::scalar::Arith;
use crate::value::{Graph, InnerValue, Value};

verus! {

/// A layer, by its neurons.
pub struct Layer {
    neurons: Vec<Neuron>,
}

impl View for Layer {
    type V = Seq<NeuronView>;

    closed spec fn view(&self) -> Seq<NeuronView> {
        Seq::new(self.neurons@.len(), |i: int| self.neurons@[i]@)
    }
}

/// Whether every parameter of every neuron is one of the first `len` nodes.
pub open spec fn layer_within(neurons: Seq<NeuronView>, len: nat) -> bool {
    forall|k: int| 0 <= k < neurons.len() ==> (#[trigger] neurons[k]).within(len)
}

/// The layer of `nout` neurons with `nin` inputs each whose parameters are the nodes from
/// `base` on, neuron after neuron.
pub open spec fn layer_placed(base: nat, nin: nat, nout: nat) -> Seq<NeuronView> {
    Seq::new(nout, |k: int| NeuronView::placed((base + k * (nin + 1)) as nat, nin))
}

/// The nodes that a call of the layer on the inputs `x` appends to a graph of `base` nodes:
/// those of each neuron's call, neuron after neuron.
pub open spec fn layer_nodes(neurons: Seq<NeuronView>, base: nat, x: Seq<Value>) -> Seq<InnerValue>
    decreases neurons.len(),
{
    if neurons.len() == 0 {
        Seq::empty()
    } else {
        let before = layer_nodes(neurons.drop_last(), base, x);
        before + neurons.last().call_nodes(base + before.len(), x)
    }
}

/// The outputs of that call: for each neuron the last node of its call.
pub open spec fn layer_outputs(neurons: Seq<NeuronView>, base: nat, x: Seq<Value>) -> Seq<Value>
    decreases neurons.len(),
{
    if neurons.len() == 0 {
        Seq::empty()
    } else {
        layer_outputs(neurons.drop_last(), base, x).push(
            Value { inner: (base + layer_nodes(neurons, base, x).len() - 1) as usize },
        )
    }
}

/// What the neurons make of the inputs `x`, where `data` holds the values of all nodes: the
/// output of each neuron, in the order of the neurons.
pub open spec fn layer_output(
    arith: Arith,
    neurons: Seq<NeuronView>,
    data: Seq<u64>,
    x: Seq<u64>,
) -> Seq<u64> {
    Seq::new(neurons.len(), |k: int| neurons[k].output(arith, data, x))
}

/// The parameters of the neurons, neuron after neuron: for each its weights, then its bias.
pub open spec fn layer_parameters(neurons: Seq<NeuronView>) -> Seq<Value>
    decreases neurons.len(),
{
    if neurons.len() == 0 {
        Seq::empty()
    } else {
        layer_parameters(neurons.drop_last()) + neurons.last().weights.push(neurons.last().bias)
    }
}

impl Layer {
    /// A layer of `nout` neurons with `nin` inputs each, read from `init` at `start`.
    pub(crate) fn read(g: &mut Graph, nin: usize, nout: usize, init: &[u64], start: usize) -> (layer: Layer)
        requires
            old(g).wf(),
            start + nout * (nin + 1) <= init@.len(),
        ensures
            final(g).wf(),
            final(g)@ == old(g)@ + leaves(init@.subrange(start as int, start + nout * (nin + 1))),
            layer@ == layer_placed(old(g)@.len(), nin as nat, nout as nat),
            keeps_values(old(g)@, final(g)@),
    {
        let ghost base = g@.len();
        let ghost width = nin + 1;
        let total: usize = init.len();
        let mut neurons: Vec<Neuron> = Vec::new();
        let mut k: usize = 0;
        let mut pos: usize = start;
        while k < nout
            invariant
                k <= nout,
                width == nin + 1,
                init@.len() == total,
                start + nout * width <= init@.len(),
                pos == start + k * width,
                g.wf(),
                g@ == old(g)@ + leaves(init@.subrange(start as int, pos as int)),
                base == old(g)@.len(),
                neurons@.len() == k,
                forall|j: int|
                    0 <= j < k ==> (#[trigger] neurons@[j])@ == NeuronView::placed(
                        (base + j * width) as nat,
                        nin as nat,
                    ),
            decreases nout - k,
        {
            proof {
                assert((k + 1) * width == k * width + width) by (nonlinear_arith);
                assert((k + 1) * width <= nout * width) by (nonlinear_arith)
                    requires
                        k + 1 <= nout,
                        width >= 0,
                ;
            }
            let ghost before = g@;
            let neuron = Neuron::read(g, nin, init, pos);
            neurons.push(neuron);
            proof {
                assert(g@ =~= old(g)@ + leaves(init@.subrange(start as int, pos + width)));
            }
            pos = pos + nin + 1;
            k = k + 1;
        }
        let layer = Layer { neurons };
        proof {
            assert(layer@ =~= layer_placed(base, nin as nat, nout as nat));
            lemma_keeps_values(old(g)@, leaves(init@.subrange(start as int, start + nout * (nin + 1))));
        }
        layer
    }

    /// A layer of `nout` neurons with `nin` inputs each. The parameters become new leaves,
    /// neuron after neuron, each with a weight drawn from `rng`.
    pub fn new(g: &mut Graph, nin: usize, nout: usize, rng: &mut rand::rngs::StdRng) -> (layer: Layer)
        requires
            old(g).wf(),
        ensures
            final(g).wf(),
            grown_by_weights(old(g)@, final(g)@, (nout * (nin + 1)) as nat),
            layer@ == layer_placed(old(g)@.len(), nin as nat, nout as nat),
            keeps_values(old(g)@, final(g)@),
    {
        let ghost base = g@.len();
        let ghost width = nin + 1;
        let mut neurons: Vec<Neuron> = Vec::new();
        let mut k: usize = 0;
        proof {
            assert(g@.subrange(0, base as int) =~= old(g)@);
        }
        while k < nout
            invariant
                k <= nout,
                width == nin + 1,
                base == old(g)@.len(),
                g.wf(),
                grown_by_weights(old(g)@, g@, (k * width) as nat),
                keeps_values(old(g)@, g@),
                neurons@.len() == k,
                forall|j: int|
                    0 <= j < k ==> (#[trigger] neurons@[j])@ == NeuronView::placed(
                        (base + j * width) as nat,
                        nin as nat,
                    ),
            decreases nout - k,
        {
            let ghost before = g@;
            proof {
                assert((k + 1) * width == k * width + width) by (nonlinear_arith);
                assert(k * width >= 0) by (nonlinear_arith)
                    requires
                        k >= 0,
                        width >= 0,
                ;
            }
            let neuron = Neuron::new(g, nin, rng);
            neurons.push(neuron);
            proof {
                lemma_grown_again(old(g)@, before, g@, (k * width) as nat, width as nat);
            }
            k = k + 1;
        }
        let layer = Layer { neurons };
        proof {
            assert(layer@ =~= layer_placed(base, nin as nat, nout as nat));
        }
        layer
    }

    /// A layer of `nout` neurons with `nin` inputs each. The parameters become new leaves that
    /// hold the scalars of `init`, neuron after neuron, for each its weights and then its bias;
    /// `init` has to hold as many scalars as there are parameters.
    pub fn with_parameters(g: &mut Graph, nin: usize, nout: usize, init: &[u64]) -> (made: Option<Layer>)
        requires
            old(g).wf(),
        ensures
            final(g).wf(),
            made is Some <==> init@.len() == nout * (nin + 1),
            made is Some ==> final(g)@ == old(g)@ + leaves(init@) && made->0@ == layer_placed(
                old(g)@.len(),
                nin as nat,
                nout as nat,
            ),
            made is None ==> final(g)@ == old(g)@,
            keeps_values(old(g)@, final(g)@),
    {
        let total: usize = init.len();
        let needed: Option<usize> = if nout == 0 {
            Some(0)
        } else {
            match nin.checked_add(1) {
                Some(width) => nout.checked_mul(width),
                None => None,
            }
        };
        proof {
            if nout > 0 && nin + 1 > usize::MAX {
                assert(nout * (nin + 1) > usize::MAX) by (nonlinear_arith)
                    requires
                        nin + 1 > usize::MAX,
                        nout >= 1,
                ;
            }
            assert(match needed {
                Some(c) => c == nout * (nin + 1),
                None => nout * (nin + 1) > usize::MAX,
            });
        }
        if needed != Some(total) {
            return None;
        }
        let layer = Layer::read(g, nin, nout, init, 0);
        proof {
            assert(init@.subrange(0, nout * (nin + 1)) =~= init@);
        }
        Some(layer)
    }

    /// The number of neurons.
    pub fn len(&self) -> (n: usize)
        ensures
            n == self@.len(),
    {
        self.neurons.len()
    }

    /// The `k`-th neuron.
    pub fn neuron(&self, k: usize) -> (neuron: &Neuron)
        requires
            k < self@.len(),
        ensures
            neuron@ == self@[k as int],
    {
        &self.neurons[k]
    }

    /// Tells whether every parameter of every neuron is a node of `g`.
    pub fn within(&self, g: &Graph) -> (ok: bool)
        ensures
            ok == layer_within(self@, g@.len()),
    {
        let mut k: usize = 0;
        while k < self.neurons.len()
            invariant
                k <= self.neurons@.len(),
                self@.len() == self.neurons@.len(),
                forall|j: int| 0 <= j < k ==> (#[trigger] self@[j]).within(g@.len()),
            decreases self.neurons@.len() - k,
        {
            if !self.neurons[k].within(g) {
                assert(!self@[k as int].within(g@.len()));
                return false;
            }
            k = k + 1;
        }
        true
    }

    /// The outputs of the neurons for the inputs `x`, in the order of the neurons.
    pub fn call(&self, g: &mut Graph, x: &[Value]) -> (out: Vec<Value>)
        requires
            old(g).wf(),
            layer_within(self@, old(g)@.len()),
            forall|i: int| 0 <= i < x@.len() ==> old(g).holds(#[trigger] x@[i]),
        ensures
            final(g).wf(),
            final(g)@ == old(g)@ + layer_nodes(self@, old(g)@.len(), x@),
            out@ == layer_outputs(self@, old(g)@.len(), x@),
            forall|i: int| 0 <= i < out@.len() ==> final(g).holds(#[trigger] out@[i]),
            keeps_values(old(g)@, final(g)@),
            forall|arith: Arith| #[trigger]
                lookup(values(arith, final(g)@), out@) == layer_output(
                    arith,
                    self@,
                    values(arith, old(g)@),
                    lookup(values(arith, old(g)@), x@),
                ),
    {
        let ghost base = g@.len();
        let mut out: Vec<Value> = Vec::new();
        let mut k: usize = 0;
        proof {
            assert(self@.subrange(0, 0) =~= Seq::<NeuronView>::empty());
            assert forall|arith: Arith| #[trigger]
                lookup(values(arith, g@), out@) == layer_output(
                    arith,
                    self@.subrange(0, 0),
                    values(arith, old(g)@),
                    lookup(values(arith, old(g)@), x@),
                ) by {
                assert(lookup(values(arith, g@), out@) =~= layer_output(
                    arith,
                    self@.subrange(0, 0),
                    values(arith, old(g)@),
                    lookup(values(arith, old(g)@), x@),
                ));
            }
        }
        while k < self.neurons.len()
            invariant
                k <= self.neurons@.len(),
                self@.len() == self.neurons@.len(),
                base == old(g)@.len(),
                g.wf(),
                layer_within(self@, base),
                forall|i: int| 0 <= i < x@.len() ==> (#[trigger] x@[i]).inner < base,
                g@ == old(g)@ + layer_nodes(self@.subrange(0, k as int), base, x@),
                out@ == layer_outputs(self@.subrange(0, k as int), base, x@),
                forall|i: int| 0 <= i < out@.len() ==> (#[trigger] out@[i]).inner < g@.len(),
                keeps_values(old(g)@, g@),
                forall|arith: Arith| #[trigger]
                    lookup(values(arith, g@), out@) == layer_output(
                        arith,
                        self@.subrange(0, k as int),
                        values(arith, old(g)@),
                        lookup(values(arith, old(g)@), x@),
                    ),
            decreases self.neurons@.len() - k,
        {
            let neuron = &self.neurons[k];
            proof {
                assert(neuron@ == self@[k as int]);
                assert(self@[k as int].within(base));
            }
            let ghost before = g@;
            let ghost outs = out@;
            let y = neuron.call(g, x);
            out.push(y);
            proof {
                let head = self@.subrange(0, k as int);
                let next = self@.subrange(0, k + 1);
                assert(next.drop_last() =~= head);
                assert(next.last() == neuron@);
                assert(before.len() == base + layer_nodes(head, base, x@).len());
                assert(g@ =~= old(g)@ + layer_nodes(next, base, x@));
                assert forall|arith: Arith| #[trigger]
                    lookup(values(arith, g@), out@) == layer_output(
                        arith,
                        next,
                        values(arith, old(g)@),
                        lookup(values(arith, old(g)@), x@),
                    ) by {
                    let first = values(arith, old(g)@);
                    lemma_lookup_kept(arith, old(g)@, before, x@);
                    lemma_output_kept(arith, old(g)@, before, neuron@, lookup(first, x@));
                    lemma_lookup_kept(arith, before, g@, outs);
                    assert(lookup(values(arith, before), outs) == layer_output(
                        arith,
                        head,
                        first,
                        lookup(first, x@),
                    ));
                    assert(value_of(arith, g@, y) == neuron@.output(arith, first, lookup(first, x@)));
                    assert(lookup(values(arith, g@), out@) =~= lookup(values(arith, g@), outs).push(
                        value_of(arith, g@, y),
                    ));
                    assert(layer_output(arith, next, first, lookup(first, x@)) =~= layer_output(
                        arith,
                        head,
                        first,
                        lookup(first, x@),
                    ).push(neuron@.output(arith, first, lookup(first, x@))));
                }
            }
            k = k + 1;
        }
        proof {
            assert(self@.subrange(0, k as int) =~= self@);
        }
        out
    }

    /// The parameters of the layer, neuron after neuron.
    pub fn parameters(&self) -> (all: Vec<Value>)
        ensures
            all@ == layer_parameters(self@),
    {
        let mut all: Vec<Value> = Vec::new();
        let mut k: usize = 0;
        proof {
            assert(self@.subrange(0, 0) =~= Seq::<NeuronView>::empty());
        }
        while k < self.neurons.len()
            invariant
                k <= self.neurons@.len(),
                self@.len() == self.neurons@.len(),
                all@ == layer_parameters(self@.subrange(0, k as int)),
            decreases self.neurons@.len() - k,
        {
            let mut own = self.neurons[k].parameters();
            proof {
                let head = self@.subrange(0, k as int);
                let next = self@.subrange(0, k + 1);
                assert(next.drop_last() =~= head);
                assert(next.last() == self.neurons@[k as int]@);
            }
            all.append(&mut own);
            k = k + 1;
        }
        proof {
            assert(self@.subrange(0, k as int) =~= self@);
        }
        all
    }
}

} // verus!
