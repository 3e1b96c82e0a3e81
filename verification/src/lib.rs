//! Reverse-mode automatic differentiation over scalars, and a small neural network on top.
//!
//! An expression is recorded as an arena of nodes, the [`Graph`]: every operation appends a
//! node that names its operands by index, so a node can be shared by many results and the graph
//! has no cycle. A [`Value`] is a handle to a node.
//!
//! Scalars are carried as IEEE-754 binary64 bit patterns, and their arithmetic is left to the
//! host. The engine turns a graph into straight-line code over a small register machine
//! ([`tape`]): [`Graph::forward`] for the values of the nodes, [`Value::backwards`] for the
//! gradients of a pass. A [`tape::Machine`] holds the registers; for each instruction it hands
//! the host a request for one primitive, and takes the answer back.
//!
//! What the code computes is stated for every arithmetic that a host may have ([`scalar::Arith`]):
//! [`forward::values`] and [`backward::gradients`] say it, and [`laws`] holds what follows.
//!
//! A network ([`Neuron`], [`Layer`], [`MLP`]) is a set of handles to its parameters, which are
//! leaves of the graph; its first weights are drawn at random ([`random`]) or given.

pub mod scalar;
pub mod value;
pub mod order;
pub mod tape;
pub mod forward;
pub mod backward;
pub mod laws;
pub mod random;
pub mod neuron;
pub mod layer;
pub mod mlp;

pub use layer::Layer;
pub use mlp::MLP;
pub use neuron::Neuron;
pub use scalar::Prim;
pub use tape::{Instr, Machine, Reg, Request};
pub use value::{Graph, InnerValue, Operation, Value};
