//! A multi-layer perceptron: layers in a row, each reading the outputs of the one before.

use vstd::prelude::*;
use vstd::slice::slice_to_vec;
use crate::forward::{keeps_values, lemma_keeps_values, lookup, values};
use crate::layer::{
    layer_nodes, layer_output, layer_outputs, layer_parameters, layer_placed, layer_within, Layer,
};
use crate::neuron::{grown_by_weights, leaves, lemma_grown_again, lemma_output_kept, NeuronView};
use crate::scalar::Arith;
use crate::value::{Graph, InnerValue, Value};

verus! {

/// A multi-layer perceptron, by its layers.
pub struct MLP {
    layers: Vec<Layer>,
}

impl View for MLP {
    type V = Seq<Seq<NeuronView>>;

    closed spec fn view(&self) -> Seq<Seq<NeuronView>> {
        Seq::new(self.layers@.len(), |i: int| self.layers@[i]@)
    }
}

/// The number of inputs of the `i`-th layer of a network with `nin` inputs and layers of the
/// sizes `nouts`: `nin` for the first layer, and the size of the layer before for any other.
pub open spec fn fan_in(nin: nat, nouts: Seq<usize>, i: int) -> nat {
    if i == 0 {
        nin
    } else {
        nouts[i - 1] as nat
    }
}

/// The number of parameters of that network: for each neuron one weight for each of its inputs,
/// and a bias.
pub open spec fn parameter_count(nin: nat, nouts: Seq<usize>) -> nat
    decreases nouts.len(),
{
    if nouts.len() == 0 {
        0
    } else {
        parameter_count(nin, nouts.drop_last()) + (nouts.last() as nat) * (fan_in(nin, nouts, nouts.len() - 1)
            + 1)
    }
}

/// That network with the nodes from `base` on for its parameters, layer after layer.
pub open spec fn mlp_placed(base: nat, nin: nat, nouts: Seq<usize>) -> Seq<Seq<NeuronView>>
    decreases nouts.len(),
{
    if nouts.len() == 0 {
        Seq::empty()
    } else {
        mlp_placed(base, nin, nouts.drop_last()).push(
            layer_placed(
                base + parameter_count(nin, nouts.drop_last()),
                fan_in(nin, nouts, nouts.len() - 1),
                nouts.last() as nat,
            ),
        )
    }
}

/// Whether every parameter of every layer is one of the first `len` nodes.
pub open spec fn mlp_within(layers: Seq<Seq<NeuronView>>, len: nat) -> bool {
    forall|k: int| 0 <= k < layers.len() ==> layer_within(#[trigger] layers[k], len)
}

/// The nodes that a call of the network on the inputs `x` appends to a graph of `base` nodes:
/// those of each layer's call, layer after layer.
pub open spec fn mlp_nodes(layers: Seq<Seq<NeuronView>>, base: nat, x: Seq<Value>) -> Seq<InnerValue>
    decreases layers.len(), 1nat,
{
    if layers.len() == 0 {
        Seq::empty()
    } else {
        let before = mlp_nodes(layers.drop_last(), base, x);
        before + layer_nodes(layers.last(), base + before.len(), mlp_outputs(layers.drop_last(), base, x))
    }
}

/// The outputs of that call: those of the last layer, which reads the outputs of the layer
/// before it, and so on down to the first, which reads `x`. A network without layers hands
/// its inputs back.
pub open spec fn mlp_outputs(layers: Seq<Seq<NeuronView>>, base: nat, x: Seq<Value>) -> Seq<Value>
    decreases layers.len(), 0nat,
{
    if layers.len() == 0 {
        x
    } else {
        layer_outputs(
            layers.last(),
            base + mlp_nodes(layers.drop_last(), base, x).len(),
            mlp_outputs(layers.drop_last(), base, x),
        )
    }
}

/// What the layers make of the inputs `x`, where `data` holds the values of all nodes: the
/// last layer's output for the output of the layers before it. A network without layers hands
/// its inputs back.
pub open spec fn mlp_output(
    arith: Arith,
    layers: Seq<Seq<NeuronView>>,
    data: Seq<u64>,
    x: Seq<u64>,
) -> Seq<u64>
    decreases layers.len(),
{
    if layers.len() == 0 {
        x
    } else {
        layer_output(arith, layers.last(), data, mlp_output(arith, layers.drop_last(), data, x))
    }
}

/// The parameters of the layers, layer after layer.
pub open spec fn mlp_parameters(layers: Seq<Seq<NeuronView>>) -> Seq<Value>
    decreases layers.len(),
{
    if layers.len() == 0 {
        Seq::empty()
    } else {
        mlp_parameters(layers.drop_last()) + layer_parameters(layers.last())
    }
}

/// The first layers of a network have no more parameters than the whole network.
pub proof fn lemma_parameter_count_grows(nin: nat, nouts: Seq<usize>, i: int)
    requires
        0 <= i <= nouts.len(),
    ensures
        parameter_count(nin, nouts.subrange(0, i)) <= parameter_count(nin, nouts),
    decreases nouts.len(),
{
    if i == nouts.len() {
        assert(nouts.subrange(0, i) =~= nouts);
    } else {
        lemma_parameter_count_grows(nin, nouts.drop_last(), i);
        assert(nouts.drop_last().subrange(0, i) =~= nouts.subrange(0, i));
    }
}

impl MLP {
    /// The number of parameters of a network with `nin` inputs and layers of the sizes `nouts`;
    /// `None` where the number is more than a `usize` holds.
    pub fn count(nin: usize, nouts: &[usize]) -> (needed: Option<usize>)
        ensures
            match needed {
                Some(c) => c == parameter_count(nin as nat, nouts@),
                None => parameter_count(nin as nat, nouts@) > usize::MAX,
            },
    {
        let mut sum: usize = 0;
        let mut i: usize = 0;
        proof {
            assert(nouts@.subrange(0, 0) =~= Seq::<usize>::empty());
        }
        while i < nouts.len()
            invariant
                i <= nouts@.len(),
                sum == parameter_count(nin as nat, nouts@.subrange(0, i as int)),
            decreases nouts@.len() - i,
        {
            let fan: usize = if i == 0 {
                nin
            } else {
                nouts[i - 1]
            };
            let nout: usize = nouts[i];
            let ghost next = nouts@.subrange(0, i + 1);
            proof {
                assert(next.drop_last() =~= nouts@.subrange(0, i as int));
                assert(next.last() == nout);
                assert(fan_in(nin as nat, next, i as int) == fan);
                lemma_parameter_count_grows(nin as nat, nouts@, i + 1);
            }
            let term: Option<usize> = if nout == 0 {
                Some(0)
            } else {
                match fan.checked_add(1) {
                    Some(width) => nout.checked_mul(width),
                    None => None,
                }
            };
            proof {
                if nout > 0 && fan + 1 > usize::MAX {
                    assert(nout * (fan + 1) > usize::MAX) by (nonlinear_arith)
                        requires
                            fan + 1 > usize::MAX,
                            nout >= 1,
                    ;
                }
            }
            let grown = match term {
                Some(t) => sum.checked_add(t),
                None => None,
            };
            match grown {
                Some(s) => {
                    sum = s;
                },
                None => {
                    return None;
                },
            }
            i = i + 1;
        }
        proof {
            assert(nouts@.subrange(0, i as int) =~= nouts@);
        }
        Some(sum)
    }

    /// A network with `nin` inputs and layers of the sizes `nouts`. The parameters become new
    /// leaves, layer after layer, each with a weight drawn from `rng`.
    pub fn new(g: &mut Graph, nin: usize, nouts: &[usize], rng: &mut rand::rngs::StdRng) -> (net: MLP)
        requires
            old(g).wf(),
        ensures
            final(g).wf(),
            grown_by_weights(old(g)@, final(g)@, parameter_count(nin as nat, nouts@)),
            net@ == mlp_placed(old(g)@.len(), nin as nat, nouts@),
            keeps_values(old(g)@, final(g)@),
    {
        let ghost base = g@.len();
        let mut layers: Vec<Layer> = Vec::new();
        let mut i: usize = 0;
        proof {
            assert(nouts@.subrange(0, 0) =~= Seq::<usize>::empty());
            assert(g@.subrange(0, base as int) =~= old(g)@);
        }
        while i < nouts.len()
            invariant
                i <= nouts@.len(),
                base == old(g)@.len(),
                g.wf(),
                grown_by_weights(old(g)@, g@, parameter_count(nin as nat, nouts@.subrange(0, i as int))),
                keeps_values(old(g)@, g@),
                layers@.len() == i,
                Seq::new(layers@.len(), |k: int| layers@[k]@) == mlp_placed(
                    base,
                    nin as nat,
                    nouts@.subrange(0, i as int),
                ),
            decreases nouts@.len() - i,
        {
            let fan: usize = if i == 0 {
                nin
            } else {
                nouts[i - 1]
            };
            let nout: usize = nouts[i];
            let ghost head = nouts@.subrange(0, i as int);
            let ghost next = nouts@.subrange(0, i + 1);
            let ghost made = Seq::new(layers@.len(), |k: int| layers@[k]@);
            let ghost before = g@;
            proof {
                assert(next.drop_last() =~= head);
                assert(next.last() == nout);
                assert(fan_in(nin as nat, next, i as int) == fan);
            }
            let layer = Layer::new(g, fan, nout, rng);
            layers.push(layer);
            proof {
                lemma_grown_again(
                    old(g)@,
                    before,
                    g@,
                    parameter_count(nin as nat, head),
                    (nout * (fan + 1)) as nat,
                );
                assert(Seq::new(layers@.len(), |k: int| layers@[k]@) =~= made.push(layer@));
            }
            i = i + 1;
        }
        proof {
            assert(nouts@.subrange(0, i as int) =~= nouts@);
        }
        MLP { layers }
    }

    /// A network with `nin` inputs and layers of the sizes `nouts`. The parameters become new
    /// leaves that hold the scalars of `init`, layer after layer; `init` has to hold as many
    /// scalars as there are parameters.
    pub fn with_parameters(
        g: &mut Graph,
        nin: usize,
        nouts: &[usize],
        init: &[u64],
    ) -> (made: Option<MLP>)
        requires
            old(g).wf(),
        ensures
            final(g).wf(),
            made is Some <==> init@.len() == parameter_count(nin as nat, nouts@),
            made is Some ==> final(g)@ == old(g)@ + leaves(init@) && made->0@ == mlp_placed(
                old(g)@.len(),
                nin as nat,
                nouts@,
            ),
            made is None ==> final(g)@ == old(g)@,
            keeps_values(old(g)@, final(g)@),
    {
        let total: usize = init.len();
        if MLP::count(nin, nouts) != Some(total) {
            return None;
        }
        let ghost base = g@.len();
        let mut layers: Vec<Layer> = Vec::new();
        let mut i: usize = 0;
        let mut pos: usize = 0;
        proof {
            assert(nouts@.subrange(0, 0) =~= Seq::<usize>::empty());
            assert(g@ =~= old(g)@ + leaves(init@.subrange(0, 0)));
        }
        while i < nouts.len()
            invariant
                i <= nouts@.len(),
                total == init@.len(),
                total == parameter_count(nin as nat, nouts@),
                pos == parameter_count(nin as nat, nouts@.subrange(0, i as int)),
                pos <= total,
                base == old(g)@.len(),
                g.wf(),
                g@ == old(g)@ + leaves(init@.subrange(0, pos as int)),
                layers@.len() == i,
                Seq::new(layers@.len(), |k: int| layers@[k]@) == mlp_placed(
                    base,
                    nin as nat,
                    nouts@.subrange(0, i as int),
                ),
            decreases nouts@.len() - i,
        {
            let fan: usize = if i == 0 {
                nin
            } else {
                nouts[i - 1]
            };
            let nout: usize = nouts[i];
            let ghost head = nouts@.subrange(0, i as int);
            let ghost next = nouts@.subrange(0, i + 1);
            let ghost made = Seq::new(layers@.len(), |k: int| layers@[k]@);
            proof {
                assert(next.drop_last() =~= head);
                assert(next.last() == nout);
                assert(fan_in(nin as nat, next, i as int) == fan);
                lemma_parameter_count_grows(nin as nat, nouts@, i + 1);
            }
            let layer = Layer::read(g, fan, nout, init, pos);
            proof {
                assert(g@ =~= old(g)@ + leaves(init@.subrange(0, pos + nout * (fan + 1))));
            }
            layers.push(layer);
            proof {
                assert(Seq::new(layers@.len(), |k: int| layers@[k]@) =~= made.push(layer@));
            }
            proof {
                if nout > 0 {
                    assert(fan + 1 <= nout * (fan + 1)) by (nonlinear_arith)
                        requires
                            nout >= 1,
                            fan >= 0,
                    ;
                }
            }
            let used: usize = if nout == 0 {
                0
            } else {
                nout * (fan + 1)
            };
            pos = pos + used;
            i = i + 1;
        }
        proof {
            assert(nouts@.subrange(0, i as int) =~= nouts@);
            assert(init@.subrange(0, pos as int) =~= init@);
            lemma_keeps_values(old(g)@, leaves(init@));
        }
        Some(MLP { layers })
    }

    /// The number of layers.
    pub fn len(&self) -> (n: usize)
        ensures
            n == self@.len(),
    {
        self.layers.len()
    }

    /// The `k`-th layer.
    pub fn layer(&self, k: usize) -> (layer: &Layer)
        requires
            k < self@.len(),
        ensures
            layer@ == self@[k as int],
    {
        &self.layers[k]
    }

    /// Tells whether every parameter of every layer is a node of `g`.
    pub fn within(&self, g: &Graph) -> (ok: bool)
        ensures
            ok == mlp_within(self@, g@.len()),
    {
        let mut k: usize = 0;
        while k < self.layers.len()
            invariant
                k <= self.layers@.len(),
                self@.len() == self.layers@.len(),
                forall|j: int| 0 <= j < k ==> layer_within(#[trigger] self@[j], g@.len()),
            decreases self.layers@.len() - k,
        {
            if !self.layers[k].within(g) {
                assert(!layer_within(self@[k as int], g@.len()));
                return false;
            }
            k = k + 1;
        }
        true
    }

    /// The outputs of the network for the inputs `x`: each layer reads the outputs of the layer
    /// before it, the first reads `x`.
    pub fn call(&self, g: &mut Graph, x: &[Value]) -> (out: Vec<Value>)
        requires
            old(g).wf(),
            mlp_within(self@, old(g)@.len()),
            forall|i: int| 0 <= i < x@.len() ==> old(g).holds(#[trigger] x@[i]),
        ensures
            final(g).wf(),
            final(g)@ == old(g)@ + mlp_nodes(self@, old(g)@.len(), x@),
            out@ == mlp_outputs(self@, old(g)@.len(), x@),
            forall|i: int| 0 <= i < out@.len() ==> final(g).holds(#[trigger] out@[i]),
            keeps_values(old(g)@, final(g)@),
            forall|arith: Arith| #[trigger]
                lookup(values(arith, final(g)@), out@) == mlp_output(
                    arith,
                    self@,
                    values(arith, old(g)@),
                    lookup(values(arith, old(g)@), x@),
                ),
    {
        let ghost base = g@.len();
        let mut out: Vec<Value> = slice_to_vec(x);
        let mut k: usize = 0;
        proof {
            assert(self@.subrange(0, 0) =~= Seq::<Seq<NeuronView>>::empty());
            assert(g@ =~= old(g)@ + mlp_nodes(self@.subrange(0, 0), base, x@));
        }
        while k < self.layers.len()
            invariant
                k <= self.layers@.len(),
                self@.len() == self.layers@.len(),
                base == old(g)@.len(),
                g.wf(),
                mlp_within(self@, base),
                g@ == old(g)@ + mlp_nodes(self@.subrange(0, k as int), base, x@),
                out@ == mlp_outputs(self@.subrange(0, k as int), base, x@),
                forall|i: int| 0 <= i < out@.len() ==> (#[trigger] out@[i]).inner < g@.len(),
                keeps_values(old(g)@, g@),
                forall|arith: Arith| #[trigger]
                    lookup(values(arith, g@), out@) == mlp_output(
                        arith,
                        self@.subrange(0, k as int),
                        values(arith, old(g)@),
                        lookup(values(arith, old(g)@), x@),
                    ),
            decreases self.layers@.len() - k,
        {
            let layer = &self.layers[k];
            proof {
                assert(layer@ == self@[k as int]);
                assert(layer_within(self@[k as int], base));
                assert forall|j: int| 0 <= j < layer@.len() implies (#[trigger] layer@[j]).within(
                    g@.len(),
                ) by {
                    assert(layer@[j].within(base));
                }
            }
            let ghost before = g@;
            let ghost inputs = out@;
            let next_out = layer.call(g, out.as_slice());
            proof {
                let head = self@.subrange(0, k as int);
                let next = self@.subrange(0, k + 1);
                assert(next.drop_last() =~= head);
                assert(next.last() == layer@);
                assert(before.len() == base + mlp_nodes(head, base, x@).len());
                assert(g@ =~= old(g)@ + mlp_nodes(next, base, x@));
                assert forall|arith: Arith| #[trigger]
                    lookup(values(arith, g@), next_out@) == mlp_output(
                        arith,
                        next,
                        values(arith, old(g)@),
                        lookup(values(arith, old(g)@), x@),
                    ) by {
                    let first = values(arith, old(g)@);
                    let fed = lookup(values(arith, before), inputs);
                    assert(fed == mlp_output(arith, head, first, lookup(first, x@)));
                    assert(lookup(values(arith, g@), next_out@) == layer_output(
                        arith,
                        layer@,
                        values(arith, before),
                        fed,
                    ));
                    assert forall|j: int| 0 <= j < layer@.len() implies layer@[j].output(
                        arith,
                        values(arith, before),
                        fed,
                    ) == layer@[j].output(arith, first, fed) by {
                        assert(layer@[j].within(base));
                        lemma_output_kept(arith, old(g)@, before, layer@[j], fed);
                    }
                    assert(layer_output(arith, layer@, values(arith, before), fed) =~= layer_output(
                        arith,
                        layer@,
                        first,
                        fed,
                    ));
                }
            }
            out = next_out;
            k = k + 1;
        }
        proof {
            assert(self@.subrange(0, k as int) =~= self@);
        }
        out
    }

    /// The parameters of the network, layer after layer.
    pub fn parameters(&self) -> (all: Vec<Value>)
        ensures
            all@ == mlp_parameters(self@),
    {
        let mut all: Vec<Value> = Vec::new();
        let mut k: usize = 0;
        proof {
            assert(self@.subrange(0, 0) =~= Seq::<Seq<NeuronView>>::empty());
        }
        while k < self.layers.len()
            invariant
                k <= self.layers@.len(),
                self@.len() == self.layers@.len(),
                all@ == mlp_parameters(self@.subrange(0, k as int)),
            decreases self.layers@.len() - k,
        {
            let mut own = self.layers[k].parameters();
            proof {
                let head = self@.subrange(0, k as int);
                let next = self@.subrange(0, k + 1);
                assert(next.drop_last() =~= head);
                assert(next.last() == self.layers@[k as int]@);
            }
            all.append(&mut own);
            k = k + 1;
        }
        proof {
            assert(self@.subrange(0, k as int) =~= self@);
        }
        all
    }
}

} // verus!
