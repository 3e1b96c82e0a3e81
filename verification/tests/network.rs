use rand::rngs::StdRng;
use rand::{Rng, SeedableRng};
use scalargrad::layer::Layer;
use scalargrad::mlp::MLP;
use scalargrad::neuron::Neuron;
use scalargrad::random::{random_weight, weight, HIGH, LOW};
use scalargrad::scalar::Prim;
use scalargrad::tape::{Instr, Machine, Request};
use scalargrad::value::{Graph, InnerValue, Operation, Value};

fn bits(x: f64) -> u64 {
    x.to_bits()
}

fn num(b: u64) -> f64 {
    f64::from_bits(b)
}

fn compute(q: Request) -> u64 {
    let a = num(q.lhs);
    let b = num(q.rhs);
    let r = match q.prim {
        Prim::Add => a + b,
        Prim::Sub => a - b,
        Prim::Mul => a * b,
        Prim::Div => a / b,
        Prim::Pow => a.powf(b),
        Prim::Exp => a.exp(),
    };
    bits(r)
}

fn execute(m: &mut Machine, code: &[Instr]) {
    assert!(m.execute(code, compute));
}

fn squash(x: f64) -> f64 {
    let e = (2.0 * x).exp();
    (e - 1.0) / (e + 1.0)
}

fn handles(from: usize, to: usize) -> Vec<Value> {
    (from..to).map(|i| Value { inner: i }).collect()
}

#[test]
fn neuron_with_parameters_takes_weights_then_bias() {
    let mut g = Graph::new();
    let _x = Value::new(&mut g, bits(9.0));
    let init = [bits(0.5), bits(-1.0), bits(0.25)];
    let n = Neuron::with_parameters(&mut g, 2, &init).unwrap();
    assert_eq!(g.len(), 4);
    assert_eq!(n.parameters(), handles(1, 4));
    for (i, b) in init.iter().enumerate() {
        assert_eq!(g.node(Value { inner: 1 + i }), InnerValue { data: *b, op: None });
    }
}

#[test]
fn neuron_with_parameters_wants_one_scalar_for_each() {
    let mut g = Graph::new();
    assert!(Neuron::with_parameters(&mut g, 2, &[1, 2]).is_none());
    assert!(Neuron::with_parameters(&mut g, 2, &[1, 2, 3, 4]).is_none());
    assert!(Neuron::with_parameters(&mut g, usize::MAX, &[]).is_none());
    assert_eq!(g.len(), 0);
    assert!(Neuron::with_parameters(&mut g, 0, &[7]).is_some());
    assert_eq!(g.len(), 1);
}

#[test]
fn neuron_call_squashes_the_weighted_sum() {
    let mut g = Graph::new();
    let x0 = Value::new(&mut g, bits(2.0));
    let x1 = Value::new(&mut g, bits(3.0));
    let n = Neuron::with_parameters(&mut g, 2, &[bits(0.5), bits(-1.0), bits(0.25)]).unwrap();
    let y = n.call(&mut g, &[x0, x1]);
    assert_eq!(g.len(), 10);
    assert_eq!(y.inner, 9);
    let computed = |op: Operation| InnerValue { data: 0, op: Some(op) };
    assert_eq!(g.node(Value { inner: 5 }), computed(Operation::Mul(2, 0)));
    assert_eq!(g.node(Value { inner: 6 }), computed(Operation::Add(4, 5)));
    assert_eq!(g.node(Value { inner: 7 }), computed(Operation::Mul(3, 1)));
    assert_eq!(g.node(Value { inner: 8 }), computed(Operation::Add(6, 7)));
    assert_eq!(g.node(Value { inner: 9 }), computed(Operation::Tanh(8)));

    let mut m = Machine::new(g.len());
    execute(&mut m, &g.forward());
    assert_eq!(num(m.data(Value { inner: 8 })), -1.75);
    assert_eq!(num(m.data(y)), squash(-1.75));
    execute(&mut m, &y.backwards(&g));
    let slope = 1.0 - squash(-1.75) * squash(-1.75);
    assert_eq!(num(m.grad(Value { inner: 4 })), slope);
    assert_eq!(num(m.grad(Value { inner: 2 })), 2.0 * slope);
    assert_eq!(num(m.grad(Value { inner: 3 })), 3.0 * slope);
    assert_eq!(num(m.grad(x0)), 0.5 * slope);
    assert_eq!(num(m.grad(x1)), -1.0 * slope);
}

#[test]
fn neuron_call_stops_at_the_shorter_of_weights_and_inputs() {
    let mut g = Graph::new();
    let x0 = Value::new(&mut g, bits(2.0));
    let n = Neuron::with_parameters(&mut g, 2, &[bits(0.5), bits(-1.0), bits(0.25)]).unwrap();
    let y = n.call(&mut g, &[x0]);
    assert_eq!(g.len(), 7);
    let mut m = Machine::new(g.len());
    execute(&mut m, &g.forward());
    assert_eq!(num(m.data(y)), squash(1.25));

    let bare = n.call(&mut g, &[]);
    assert_eq!(g.len(), 8);
    assert_eq!(g.node(bare), InnerValue { data: 0, op: Some(Operation::Tanh(3)) });
}

#[test]
fn a_network_is_within_the_graph_of_its_parameters() {
    let mut g = Graph::new();
    let empty = Graph::new();
    let n = Neuron::with_parameters(&mut g, 1, &[1, 2]).unwrap();
    let layer = Layer::with_parameters(&mut g, 1, 2, &[1, 2, 3, 4]).unwrap();
    let before = g.len();
    let net = MLP::with_parameters(&mut g, 1, &[1, 1], &[1, 2, 3, 4]).unwrap();
    assert!(n.within(&g) && layer.within(&g) && net.within(&g));
    assert!(!n.within(&empty) && !layer.within(&empty) && !net.within(&empty));
    let mut short = Graph::new();
    for _ in 0..before + 3 {
        Value::new(&mut short, 0);
    }
    assert!(n.within(&short) && layer.within(&short) && !net.within(&short));
    assert_eq!(layer.len(), 2);
    assert_eq!(layer.neuron(1).parameters(), handles(4, 6));
    assert_eq!(net.len(), 2);
    assert_eq!(net.layer(1).parameters(), handles(before + 2, before + 4));
}

#[test]
fn count_is_the_number_of_parameters() {
    assert_eq!(MLP::count(3, &[4, 4, 1]), Some(41));
    assert_eq!(MLP::count(3, &[]), Some(0));
    assert_eq!(MLP::count(usize::MAX, &[0, 2]), Some(2));
    assert_eq!(MLP::count(usize::MAX, &[1]), None);
    assert_eq!(MLP::count(1, &[usize::MAX]), None);
    assert_eq!(MLP::count(0, &[usize::MAX]), Some(usize::MAX));
    assert_eq!(MLP::count(0, &[usize::MAX, 0, 1]), None);
}

#[test]
fn layer_with_parameters_places_neuron_after_neuron() {
    let mut g = Graph::new();
    let init: Vec<u64> = (0..6).map(|i| bits(i as f64)).collect();
    let layer = Layer::with_parameters(&mut g, 2, 2, &init).unwrap();
    assert_eq!(g.len(), 6);
    assert_eq!(layer.parameters(), handles(0, 6));
    for i in 0..6 {
        assert_eq!(g.node(Value { inner: i }), InnerValue { data: bits(i as f64), op: None });
    }
}

#[test]
fn layer_with_parameters_wants_one_scalar_for_each() {
    let mut g = Graph::new();
    assert!(Layer::with_parameters(&mut g, 2, 2, &[0; 5]).is_none());
    assert!(Layer::with_parameters(&mut g, 2, 2, &[0; 7]).is_none());
    assert!(Layer::with_parameters(&mut g, usize::MAX, 1, &[]).is_none());
    assert!(Layer::with_parameters(&mut g, usize::MAX / 2, 4, &[0; 2]).is_none());
    assert_eq!(g.len(), 0);
    assert!(Layer::with_parameters(&mut g, usize::MAX, 0, &[]).is_some());
    assert!(Layer::with_parameters(&mut g, 3, 0, &[]).is_some());
    assert_eq!(g.len(), 0);
}

#[test]
fn layer_call_gives_one_output_for_each_neuron() {
    let mut g = Graph::new();
    let x0 = Value::new(&mut g, bits(1.0));
    let x1 = Value::new(&mut g, bits(-2.0));
    let init = [bits(0.5), bits(0.25), bits(0.0), bits(-1.0), bits(1.0), bits(0.5)];
    let layer = Layer::with_parameters(&mut g, 2, 2, &init).unwrap();
    let out = layer.call(&mut g, &[x0, x1]);
    assert_eq!(out, vec![Value { inner: 12 }, Value { inner: 17 }]);
    assert_eq!(g.len(), 18);
    let mut m = Machine::new(g.len());
    execute(&mut m, &g.forward());
    assert_eq!(num(m.data(out[0])), squash(0.0 + 0.5 * 1.0 + 0.25 * -2.0));
    assert_eq!(num(m.data(out[1])), squash(0.5 + -1.0 * 1.0 + 1.0 * -2.0));
}

#[test]
fn mlp_with_parameters_places_layer_after_layer() {
    let mut g = Graph::new();
    // 3 inputs, layers of 4, 4 and 1: 4 * 4 + 4 * 5 + 1 * 5 parameters.
    let init: Vec<u64> = (0..41).map(|i| bits(i as f64)).collect();
    let net = MLP::with_parameters(&mut g, 3, &[4, 4, 1], &init).unwrap();
    assert_eq!(g.len(), 41);
    assert_eq!(net.parameters(), handles(0, 41));
    for i in 0..41 {
        assert_eq!(g.node(Value { inner: i }), InnerValue { data: bits(i as f64), op: None });
    }
}

#[test]
fn mlp_with_parameters_wants_one_scalar_for_each() {
    let mut g = Graph::new();
    assert!(MLP::with_parameters(&mut g, 3, &[4, 4, 1], &[0; 40]).is_none());
    assert!(MLP::with_parameters(&mut g, 3, &[4, 4, 1], &[0; 42]).is_none());
    assert!(MLP::with_parameters(&mut g, 3, &[usize::MAX, usize::MAX], &[0; 4]).is_none());
    assert!(MLP::with_parameters(&mut g, usize::MAX, &[1], &[0; 1]).is_none());
    assert_eq!(g.len(), 0);
    assert!(MLP::with_parameters(&mut g, 3, &[], &[]).is_some());
    assert!(MLP::with_parameters(&mut g, usize::MAX, &[0, 2], &[0; 2]).is_some());
    assert_eq!(g.len(), 2);
}

#[test]
fn mlp_without_layers_hands_its_inputs_back() {
    let mut g = Graph::new();
    let x = Value::new(&mut g, bits(1.0));
    let net = MLP::with_parameters(&mut g, 1, &[], &[]).unwrap();
    assert_eq!(net.call(&mut g, &[x]), vec![x]);
    assert_eq!(g.len(), 1);
    assert_eq!(net.parameters(), vec![]);
}

#[test]
fn mlp_call_feeds_each_layer_the_outputs_of_the_one_before() {
    let mut g = Graph::new();
    let x = Value::new(&mut g, bits(0.5));
    // One input; a layer of two neurons, then a layer of one.
    let init = [bits(1.0), bits(0.0), bits(-1.0), bits(0.5), bits(2.0), bits(-3.0), bits(0.25)];
    let net = MLP::with_parameters(&mut g, 1, &[2, 1], &init).unwrap();
    let out = net.call(&mut g, &[x]);
    assert_eq!(out.len(), 1);
    assert_eq!(out[0].inner, g.len() - 1);
    let mut m = Machine::new(g.len());
    execute(&mut m, &g.forward());
    let h0 = squash(0.0 + 1.0 * 0.5);
    let h1 = squash(0.5 + -1.0 * 0.5);
    let y = squash(0.25 + 2.0 * h0 + -3.0 * h1);
    assert_eq!(num(m.data(out[0])), y);
}

/// The numbers that the nodes from `from` up to, but without, `to` hold, all of them leaves.
fn held(g: &Graph, from: usize, to: usize) -> Vec<f64> {
    (from..to)
        .map(|i| {
            let node = g.node(Value { inner: i });
            assert_eq!(node.op, None);
            num(node.data)
        })
        .collect()
}

fn is_weight(x: f64) -> bool {
    let scaled = x * 2.0f64.powi(51);
    -1.0 <= x && x < 1.0 && scaled == scaled.trunc()
}

#[test]
fn weight_is_the_draw_over_two_to_the_51() {
    assert_eq!(HIGH, 1i64 << 51);
    assert_eq!(LOW, -(1i64 << 51));
    assert_eq!(weight(0), bits(0.0));
    assert_eq!(weight(LOW), bits(-1.0));
    assert_eq!(weight(1i64 << 50), bits(0.5));
    assert_eq!(weight(-(1i64 << 50)), bits(-0.5));
    assert_eq!(weight(3i64 << 49), bits(0.75));
    assert_eq!(weight(1), bits(2.0f64.powi(-51)));
    assert_eq!(weight(-1), bits(-(2.0f64.powi(-51))));
    assert_eq!(weight(HIGH - 1), bits(1.0 - 2.0f64.powi(-51)));
    assert_eq!(num(weight(HIGH - 1)), 0.9999999999999996);
    for j in [5i64, -7, 123_456_789, -987_654_321_012, HIGH - 2, LOW + 1, 1 << 30, -(1 << 40) + 1] {
        assert_eq!(num(weight(j)), j as f64 / 2.0f64.powi(51));
    }
}

#[test]
fn random_weights_are_weights_and_differ() {
    let mut rng = StdRng::seed_from_u64(1);
    let drawn: Vec<f64> = (0..1000).map(|_| num(random_weight(&mut rng))).collect();
    assert!(drawn.iter().all(|x| is_weight(*x)));
    assert!(drawn.iter().any(|x| *x < -0.5));
    assert!(drawn.iter().any(|x| *x > 0.5));
    assert!(drawn.iter().any(|x| x.abs() < 0.1));
    let mean = drawn.iter().sum::<f64>() / 1000.0;
    assert!(mean.abs() < 0.1);
    let mut again = StdRng::seed_from_u64(1);
    assert!(drawn.iter().all(|x| *x == num(random_weight(&mut again))));
    let mut other = StdRng::seed_from_u64(2);
    assert!(drawn.iter().any(|x| *x != num(random_weight(&mut other))));
}

#[test]
fn random_weights_are_what_the_generator_draws() {
    let mut rng = StdRng::seed_from_u64(3);
    let mut same = StdRng::seed_from_u64(3);
    for _ in 0..100 {
        let j: i64 = same.gen_range(LOW..HIGH);
        assert_eq!(random_weight(&mut rng), weight(j));
    }
}

#[test]
fn neuron_new_draws_weights_then_bias() {
    let mut rng = StdRng::seed_from_u64(4);
    let mut same = StdRng::seed_from_u64(4);
    let mut g = Graph::new();
    let x = Value::new(&mut g, bits(9.0));
    let n = Neuron::new(&mut g, 3, &mut rng);
    assert_eq!(g.len(), 5);
    assert_eq!(g.node(x), InnerValue { data: bits(9.0), op: None });
    assert_eq!(n.parameters(), handles(1, 5));
    let drawn: Vec<f64> = (0..4).map(|_| num(random_weight(&mut same))).collect();
    assert_eq!(held(&g, 1, 5), drawn);
    assert!(drawn.iter().all(|x| is_weight(*x)));
    let bare = Neuron::new(&mut g, 0, &mut rng);
    assert_eq!(bare.parameters(), handles(5, 6));
}

#[test]
fn layer_new_draws_neuron_after_neuron() {
    let mut rng = StdRng::seed_from_u64(5);
    let mut same = StdRng::seed_from_u64(5);
    let mut g = Graph::new();
    let layer = Layer::new(&mut g, 2, 3, &mut rng);
    assert_eq!(g.len(), 9);
    assert_eq!(layer.len(), 3);
    assert_eq!(layer.parameters(), handles(0, 9));
    assert_eq!(layer.neuron(1).parameters(), handles(3, 6));
    let drawn: Vec<f64> = (0..9).map(|_| num(random_weight(&mut same))).collect();
    assert_eq!(held(&g, 0, 9), drawn);
    assert_eq!(Layer::new(&mut g, 5, 0, &mut rng).len(), 0);
    assert_eq!(g.len(), 9);
}

#[test]
fn mlp_new_draws_layer_after_layer() {
    let mut rng = StdRng::seed_from_u64(6);
    let mut same = StdRng::seed_from_u64(6);
    let mut g = Graph::new();
    let net = MLP::new(&mut g, 3, &[4, 4, 1], &mut rng);
    assert_eq!(Some(g.len()), MLP::count(3, &[4, 4, 1]));
    assert_eq!(net.len(), 3);
    assert_eq!(net.parameters(), handles(0, 41));
    assert_eq!(net.layer(0).parameters(), handles(0, 16));
    assert_eq!(net.layer(1).parameters(), handles(16, 36));
    assert_eq!(net.layer(2).parameters(), handles(36, 41));
    assert_eq!(net.layer(1).neuron(0).parameters(), handles(16, 21));
    let drawn: Vec<f64> = (0..41).map(|_| num(random_weight(&mut same))).collect();
    assert_eq!(held(&g, 0, 41), drawn);
    assert!(drawn.iter().all(|x| is_weight(*x)));
    let empty = MLP::new(&mut g, 3, &[], &mut rng);
    assert_eq!(empty.len(), 0);
    assert_eq!(g.len(), 41);
}

/// One step of gradient descent on the squared error of the network's output for one input;
/// the loss before and after the step.
fn descend(seed: u64, rate: f64) -> (f64, f64) {
    let mut rng = StdRng::seed_from_u64(seed);
    let mut g = Graph::new();
    let net = MLP::new(&mut g, 3, &[4, 4, 1], &mut rng);
    let xs: Vec<Value> = [2.0, 3.0, -1.0].iter().map(|x| Value::new(&mut g, bits(*x))).collect();
    let target = Value::new(&mut g, bits(1.0));
    let out = net.call(&mut g, &xs);
    let diff = out[0].sub(&mut g, target);
    let loss = diff.powf(&mut g, bits(2.0));

    let mut m = Machine::new(g.len());
    assert!(m.evaluate(&g, compute));
    let before = num(m.data(loss));
    assert!(m.differentiate(&g, loss, compute));
    for p in net.parameters() {
        let moved = num(m.data(p)) - rate * num(m.grad(p));
        assert!(p.set_data(&mut g, bits(moved)));
    }
    assert!(m.evaluate(&g, compute));
    (before, num(m.data(loss)))
}

#[test]
fn one_descent_step_decreases_the_loss() {
    for seed in 0..25 {
        let (before, after) = descend(seed, 0.01);
        assert!(after < before, "seed {}: {} -> {}", seed, before, after);
    }
}
