use scalargrad::scalar::{zero, Prim, MINUS_ONE, MINUS_ZERO, ONE, TWO, ZERO};
use scalargrad::tape::{Instr, Machine, Reg, Request};
use scalargrad::value::{Graph, InnerValue, Operation, Value};

fn bits(x: f64) -> u64 {
    x.to_bits()
}

fn num(b: u64) -> f64 {
    f64::from_bits(b)
}

/// The host's arithmetic: one primitive on two scalars.
fn answer(q: Request) -> u64 {
    let a = num(q.lhs);
    let b = num(q.rhs);
    let r = match q.prim {
        Prim::Add => a + b,
        Prim::Sub => a - b,
        Prim::Mul => a * b,
        Prim::Div => a / b,
        Prim::Pow => a.powf(b),
        Prim::Exp => a.exp(),
    };
    bits(r)
}

fn run(m: &mut Machine, code: &[Instr]) {
    assert!(m.execute(code, answer));
}

/// Runs `code` one instruction at a time.
fn run_by_hand(m: &mut Machine, code: &[Instr]) {
    for instr in code {
        let a = match m.request(instr) {
            Some(q) => answer(q),
            None => 0,
        };
        m.complete(instr, a);
    }
}

/// A machine on which the forward pass of `g` has run.
fn evaluated(g: &Graph) -> Machine {
    let mut m = Machine::new(g.len());
    assert!(m.evaluate(g, answer));
    m
}

/// A machine on which the forward pass of `g` and a backward pass from `root` have run.
fn differentiated(g: &Graph, root: Value) -> Machine {
    let mut m = evaluated(g);
    assert!(m.differentiate(g, root, answer));
    m
}

fn registers(m: &Machine, len: usize) -> Vec<(u64, u64)> {
    (0..len).map(|i| (m.data(Value { inner: i }), m.grad(Value { inner: i }))).collect()
}

fn close(a: f64, b: f64) -> bool {
    (a - b).abs() <= 1e-9
}

#[test]
fn constants_are_the_bit_patterns_of_their_numbers() {
    assert_eq!(ZERO, bits(0.0));
    assert_eq!(ONE, bits(1.0));
    assert_eq!(TWO, bits(2.0));
    assert_eq!(MINUS_ONE, bits(-1.0));
    assert_eq!(MINUS_ZERO, bits(-0.0));
}

#[test]
fn zero_of_either_sign_is_zero() {
    assert!(zero(bits(0.0)));
    assert!(zero(bits(-0.0)));
    assert!(!zero(bits(1.0)));
    assert!(!zero(bits(-1.0)));
    assert!(!zero(bits(f64::MIN_POSITIVE)));
    assert!(!zero(bits(f64::NAN)));
    assert!(!zero(bits(f64::INFINITY)));
}

#[test]
fn new_makes_a_leaf() {
    let mut g = Graph::new();
    assert_eq!(g.len(), 0);
    let x = Value::new(&mut g, bits(3.5));
    assert_eq!(x.inner, 0);
    assert_eq!(g.len(), 1);
    assert_eq!(g.node(x), InnerValue { data: bits(3.5), op: None });
    let m = differentiated(&g, x);
    assert_eq!(num(m.data(x)), 3.5);
}

#[test]
fn a_new_machine_holds_zero_everywhere() {
    let m = Machine::new(3);
    for i in 0..3 {
        assert_eq!(m.data(Value { inner: i }), 0);
        assert_eq!(m.grad(Value { inner: i }), 0);
    }
    let both = Instr::Apply { prim: Prim::Add, dst: Reg::First, lhs: Reg::First, rhs: Reg::Second };
    assert_eq!(m.request(&both), Some(Request { prim: Prim::Add, lhs: 0, rhs: 0 }));
}

#[test]
fn a_machine_fits_the_code_of_its_graph() {
    let mut g = Graph::new();
    let x = Value::new(&mut g, bits(3.0));
    let y = x.tanh(&mut g);
    let z = y.powf(&mut g, bits(2.0));
    let large = Machine::new(g.len());
    let small = Machine::new(g.len() - 1);
    let code: Vec<Instr> = g.forward().into_iter().chain(z.backwards(&g)).collect();
    assert!(code.iter().all(|i| large.fits(i)));
    assert!(!code.iter().all(|i| small.fits(i)));
    assert!(small.fits(&Instr::Load { dst: Reg::First, bits: 0 }));
    assert!(small.fits(&Instr::Load { dst: Reg::Grad(1), bits: 0 }));
    assert!(!small.fits(&Instr::Load { dst: Reg::Grad(2), bits: 0 }));
    assert!(!small.fits(&Instr::Apply { prim: Prim::Add, dst: Reg::First, lhs: Reg::Data(2), rhs: Reg::Second }));
    assert!(!small.fits(&Instr::Apply { prim: Prim::Add, dst: Reg::First, lhs: Reg::Second, rhs: Reg::Data(2) }));
}

#[test]
fn the_passes_run_the_code_of_the_graph() {
    let mut g = Graph::new();
    let x = Value::new(&mut g, bits(0.3));
    let w = Value::new(&mut g, bits(-1.7));
    let xw = x.mul(&mut g, w);
    let e = xw.exp(&mut g);
    let t = e.tanh(&mut g);
    let root = t.powf(&mut g, bits(1.5));

    let mut whole = Machine::new(g.len());
    assert!(whole.evaluate(&g, answer));
    assert!(whole.differentiate(&g, root, answer));

    let mut coded = Machine::new(g.len());
    assert!(coded.execute(&g.forward(), answer));
    assert!(coded.execute(&root.backwards(&g), answer));

    let mut stepped = Machine::new(g.len());
    run_by_hand(&mut stepped, &g.forward());
    run_by_hand(&mut stepped, &root.backwards(&g));

    assert_eq!(registers(&whole, g.len()), registers(&coded, g.len()));
    assert_eq!(registers(&whole, g.len()), registers(&stepped, g.len()));
    assert!(num(whole.grad(x)) != 0.0);
}

#[test]
fn a_machine_that_is_too_small_stays_as_it_is() {
    let mut g = Graph::new();
    let x = Value::new(&mut g, bits(3.0));
    let y = x.mul(&mut g, x);
    let mut m = Machine::new(1);
    assert!(m.holds(0) && m.holds(1) && !m.holds(2));
    m.complete(&Instr::Load { dst: Reg::Data(0), bits: bits(5.0) }, 0);
    m.complete(&Instr::Load { dst: Reg::Grad(0), bits: bits(7.0) }, 0);
    assert!(!m.evaluate(&g, answer));
    assert!(!m.differentiate(&g, y, answer));
    assert!(!m.execute(&g.forward(), answer));
    assert_eq!(registers(&m, 1), vec![(bits(5.0), bits(7.0))]);
    let mut large = Machine::new(5);
    assert!(large.evaluate(&g, answer));
    assert!(large.differentiate(&g, y, answer));
    assert_eq!(num(large.grad(x)), 6.0);
    assert_eq!(registers(&large, 5)[2..], [(0, 0), (0, 0), (0, 0)]);
}

#[test]
fn a_graph_has_the_nodes_it_made() {
    let mut g = Graph::new();
    assert!(!g.has(Value { inner: 0 }));
    let x = Value::new(&mut g, bits(3.0));
    assert!(g.has(x));
    assert!(!g.has(Value { inner: 1 }));
}

#[test]
fn a_load_asks_nothing_and_stores_its_constant() {
    let mut m = Machine::new(2);
    let load = Instr::Load { dst: Reg::Grad(1), bits: bits(4.0) };
    assert_eq!(m.request(&load), None);
    m.complete(&load, bits(9.0));
    assert_eq!(num(m.grad(Value { inner: 1 })), 4.0);
    assert_eq!(m.grad(Value { inner: 0 }), 0);
    assert_eq!(m.data(Value { inner: 1 }), 0);
}

#[test]
fn an_apply_asks_for_its_operands_and_stores_the_answer() {
    let mut m = Machine::new(2);
    m.complete(&Instr::Load { dst: Reg::Data(0), bits: bits(1.5) }, 0);
    m.complete(&Instr::Load { dst: Reg::Second, bits: bits(2.5) }, 0);
    let apply = Instr::Apply { prim: Prim::Sub, dst: Reg::Data(1), lhs: Reg::Data(0), rhs: Reg::Second };
    assert_eq!(m.request(&apply), Some(Request { prim: Prim::Sub, lhs: bits(1.5), rhs: bits(2.5) }));
    m.complete(&apply, bits(-1.0));
    assert_eq!(num(m.data(Value { inner: 1 })), -1.0);
    assert_eq!(num(m.data(Value { inner: 0 })), 1.5);
}

#[test]
fn add_computes_the_sum() {
    let mut g = Graph::new();
    let a = Value::new(&mut g, bits(1.5));
    let b = Value::new(&mut g, bits(2.25));
    let c = a.add(&mut g, b);
    assert_eq!(g.node(c), InnerValue { data: 0, op: Some(Operation::Add(0, 1)) });
    let m = differentiated(&g, c);
    assert_eq!(num(m.data(c)), 3.75);
    assert_eq!(num(m.grad(a)), 1.0);
    assert_eq!(num(m.grad(b)), 1.0);
    assert_eq!(num(m.grad(c)), 1.0);
}

#[test]
fn mul_computes_the_product() {
    let mut g = Graph::new();
    let a = Value::new(&mut g, bits(1.5));
    let b = Value::new(&mut g, bits(2.0));
    let c = a.mul(&mut g, b);
    assert_eq!(g.node(c), InnerValue { data: 0, op: Some(Operation::Mul(0, 1)) });
    let m = differentiated(&g, c);
    assert_eq!(num(m.data(c)), 3.0);
    assert_eq!(num(m.grad(a)), 2.0);
    assert_eq!(num(m.grad(b)), 1.5);
}

#[test]
fn neg_is_the_product_with_minus_one() {
    let mut g = Graph::new();
    let a = Value::new(&mut g, bits(2.5));
    let n = a.neg(&mut g);
    assert_eq!(g.len(), 3);
    assert_eq!(g.node(Value { inner: 1 }), InnerValue { data: bits(-1.0), op: None });
    assert_eq!(g.node(n), InnerValue { data: 0, op: Some(Operation::Mul(0, 1)) });
    let m = differentiated(&g, n);
    assert_eq!(num(m.data(n)), -2.5);
    assert_eq!(num(m.grad(a)), -1.0);
}

#[test]
fn sub_is_the_sum_with_the_negation() {
    let mut g = Graph::new();
    let a = Value::new(&mut g, bits(5.0));
    let b = Value::new(&mut g, bits(3.0));
    let d = a.sub(&mut g, b);
    assert_eq!(g.len(), 5);
    assert_eq!(g.node(Value { inner: 2 }), InnerValue { data: bits(-1.0), op: None });
    assert_eq!(g.node(Value { inner: 3 }), InnerValue { data: 0, op: Some(Operation::Mul(1, 2)) });
    assert_eq!(g.node(d), InnerValue { data: 0, op: Some(Operation::Add(0, 3)) });
    let m = differentiated(&g, d);
    assert_eq!(num(m.data(d)), 2.0);
    assert_eq!(num(m.grad(a)), 1.0);
    assert_eq!(num(m.grad(b)), -1.0);
}

#[test]
fn div_is_the_product_with_the_inverse() {
    let mut g = Graph::new();
    let a = Value::new(&mut g, bits(8.0));
    let b = Value::new(&mut g, bits(2.0));
    let q = a.div(&mut g, b);
    assert_eq!(g.len(), 4);
    assert_eq!(g.node(Value { inner: 2 }), InnerValue { data: 0, op: Some(Operation::Pow(1, bits(-1.0))) });
    assert_eq!(g.node(q), InnerValue { data: 0, op: Some(Operation::Mul(0, 2)) });
    let m = differentiated(&g, q);
    assert_eq!(num(m.data(q)), 4.0);
    assert_eq!(num(m.grad(a)), 0.5);
    assert_eq!(num(m.grad(b)), -2.0);
}

#[test]
fn div_by_zero_is_not_trapped() {
    let mut g = Graph::new();
    let a = Value::new(&mut g, bits(1.0));
    let b = Value::new(&mut g, bits(0.0));
    let q = a.div(&mut g, b);
    let m = evaluated(&g);
    assert_eq!(num(m.data(q)), f64::INFINITY);
}

#[test]
fn powf_computes_the_power() {
    let mut g = Graph::new();
    let a = Value::new(&mut g, bits(2.0));
    let p = a.powf(&mut g, bits(3.0));
    assert_eq!(g.node(p), InnerValue { data: 0, op: Some(Operation::Pow(0, bits(3.0))) });
    let m = differentiated(&g, p);
    assert_eq!(num(m.data(p)), 8.0);
    assert_eq!(num(m.grad(a)), 12.0);
}

#[test]
fn powf_with_exponent_zero_is_one_with_no_slope() {
    for x in [5.0, 0.0, -0.0, -3.0, f64::MIN_POSITIVE / 4.0] {
        for n in [0.0, -0.0] {
            let mut g = Graph::new();
            let a = Value::new(&mut g, bits(x));
            let p = a.powf(&mut g, bits(n));
            let m = differentiated(&g, p);
            assert_eq!(num(m.data(p)), 1.0);
            assert_eq!(num(m.grad(a)), 0.0);
        }
    }
}

#[test]
fn powf_at_zero_has_the_slope_of_the_power() {
    let mut g = Graph::new();
    let a = Value::new(&mut g, bits(0.0));
    let square = a.powf(&mut g, bits(2.0));
    let m = differentiated(&g, square);
    assert_eq!(num(m.data(square)), 0.0);
    assert_eq!(num(m.grad(a)), 0.0);

    let mut g = Graph::new();
    let a = Value::new(&mut g, bits(0.0));
    let same = a.powf(&mut g, bits(1.0));
    let m = differentiated(&g, same);
    assert_eq!(num(m.data(same)), 0.0);
    assert_eq!(num(m.grad(a)), 1.0);
}

#[test]
fn exp_computes_the_exponential() {
    let mut g = Graph::new();
    let a = Value::new(&mut g, bits(0.0));
    let e = a.exp(&mut g);
    assert_eq!(g.node(e), InnerValue { data: 0, op: Some(Operation::Exp(0)) });
    let m = differentiated(&g, e);
    assert_eq!(num(m.data(e)), 1.0);
    assert_eq!(num(m.grad(a)), 1.0);

    let mut g = Graph::new();
    let a = Value::new(&mut g, bits(1.5));
    let e = a.exp(&mut g);
    let m = differentiated(&g, e);
    assert_eq!(num(m.data(e)), 1.5f64.exp());
    assert_eq!(num(m.grad(a)), 1.5f64.exp());
}

#[test]
fn tanh_computes_the_hyperbolic_tangent() {
    let mut g = Graph::new();
    let a = Value::new(&mut g, bits(0.0));
    let t = a.tanh(&mut g);
    assert_eq!(g.node(t), InnerValue { data: 0, op: Some(Operation::Tanh(0)) });
    let m = differentiated(&g, t);
    assert_eq!(num(m.data(t)), 0.0);
    assert_eq!(num(m.grad(a)), 1.0);

    let mut g = Graph::new();
    let a = Value::new(&mut g, bits(0.75));
    let t = a.tanh(&mut g);
    let m = differentiated(&g, t);
    let e = (2.0f64 * 0.75).exp();
    let expected = (e - 1.0) / (e + 1.0);
    assert_eq!(num(m.data(t)), expected);
    assert!(close(num(m.data(t)), 0.75f64.tanh()));
    assert_eq!(num(m.grad(a)), (1.0 - expected * expected) * 1.0);
}

#[test]
fn gradient_accumulates_under_sharing() {
    let mut g = Graph::new();
    let x = Value::new(&mut g, bits(3.0));
    let y = x.mul(&mut g, x);
    let m = differentiated(&g, y);
    assert_eq!(num(m.data(y)), 9.0);
    assert_eq!(num(m.grad(x)), 6.0);
    assert_eq!(num(m.grad(y)), 1.0);
}

#[test]
fn gradient_accumulates_over_a_diamond() {
    // d = (x + x) * (x * x) = 2 x^3, so the slope at 3 is 6 * 9.
    let mut g = Graph::new();
    let x = Value::new(&mut g, bits(3.0));
    let twice = x.add(&mut g, x);
    let square = x.mul(&mut g, x);
    let d = twice.mul(&mut g, square);
    let m = differentiated(&g, d);
    assert_eq!(num(m.data(d)), 54.0);
    assert_eq!(num(m.grad(twice)), 9.0);
    assert_eq!(num(m.grad(square)), 6.0);
    assert_eq!(num(m.grad(x)), 54.0);
}

#[test]
fn a_consumer_hands_on_before_its_operand_does() {
    // y = (x * x) + x: the square must have the gradient of y before it hands on to x.
    let mut g = Graph::new();
    let x = Value::new(&mut g, bits(2.0));
    let square = x.mul(&mut g, x);
    let cube = square.mul(&mut g, x);
    let y = cube.add(&mut g, square);
    let m = differentiated(&g, y);
    assert_eq!(num(m.data(y)), 12.0);
    assert_eq!(num(m.grad(square)), 3.0);
    assert_eq!(num(m.grad(x)), 16.0);
}

#[test]
fn chain_rule_composes() {
    let mut g = Graph::new();
    let x = Value::new(&mut g, bits(2.0));
    let w = Value::new(&mut g, bits(0.5));
    let b = Value::new(&mut g, bits(1.0));
    let xw = x.mul(&mut g, w);
    let pre = xw.add(&mut g, b);
    let z = pre.tanh(&mut g);
    let m = differentiated(&g, z);
    let t = 2.0f64.tanh();
    let slope = 1.0 - t * t;
    assert!(close(num(m.data(z)), t));
    assert!(close(num(m.data(z)), 0.9640275800758169));
    assert!(close(num(m.grad(x)), 0.5 * slope));
    assert!(close(num(m.grad(w)), 2.0 * slope));
    assert!(close(num(m.grad(b)), slope));
    assert!(close(num(m.grad(x)), 0.035325412426582215));
    assert!(close(num(m.grad(w)), 0.14130164970632886));
    assert!(close(num(m.grad(b)), 0.07065082485316443));
}

#[test]
fn adding_a_zero_leaf_keeps_the_gradients() {
    let mut g = Graph::new();
    let x = Value::new(&mut g, bits(1.25));
    let y = Value::new(&mut g, bits(-0.5));
    let xy = x.mul(&mut g, y);
    let a = xy.tanh(&mut g);
    let direct = differentiated(&g, a);

    let zero_leaf = Value::new(&mut g, bits(0.0));
    let sum = a.add(&mut g, zero_leaf);
    let through = differentiated(&g, sum);
    for v in [x, y, xy, a] {
        assert_eq!(through.grad(v), direct.grad(v));
    }
    assert_eq!(num(through.grad(a)), 1.0);
    assert_eq!(num(through.data(sum)), num(direct.data(a)));
}

#[test]
fn a_value_divided_by_itself_has_no_slope() {
    for x in [3.0, -0.75, 1e-3, 12345.678, 1.0] {
        let mut g = Graph::new();
        let a = Value::new(&mut g, bits(x));
        let q = a.div(&mut g, a);
        let m = differentiated(&g, q);
        assert!(close(num(m.data(q)), 1.0));
        assert!(close(num(m.grad(a)), 0.0));
    }
}

#[test]
fn a_second_backward_pass_changes_nothing() {
    let mut g = Graph::new();
    let x = Value::new(&mut g, bits(0.3));
    let w = Value::new(&mut g, bits(-1.7));
    let xw = x.mul(&mut g, w);
    let e = xw.exp(&mut g);
    let s = e.add(&mut g, x);
    let root = s.powf(&mut g, bits(2.0));
    let code = root.backwards(&g);
    let mut m = evaluated(&g);
    run(&mut m, &code);
    let first: Vec<u64> = (0..g.len()).map(|i| m.grad(Value { inner: i })).collect();
    let data: Vec<u64> = (0..g.len()).map(|i| m.data(Value { inner: i })).collect();
    run(&mut m, &code);
    let second: Vec<u64> = (0..g.len()).map(|i| m.grad(Value { inner: i })).collect();
    assert_eq!(first, second);
    assert_eq!(data, (0..g.len()).map(|i| m.data(Value { inner: i })).collect::<Vec<u64>>());
    assert_eq!(num(m.grad(root)), 1.0);
    assert!(num(m.grad(x)) != 0.0);
}

#[test]
fn a_backward_pass_starts_from_zero() {
    let mut g = Graph::new();
    let x = Value::new(&mut g, bits(3.0));
    let y = x.mul(&mut g, x);
    let mut m = evaluated(&g);
    m.complete(&Instr::Load { dst: Reg::Grad(0), bits: bits(100.0) }, 0);
    m.complete(&Instr::Load { dst: Reg::Grad(1), bits: bits(-7.0) }, 0);
    run(&mut m, &y.backwards(&g));
    assert_eq!(num(m.grad(x)), 6.0);
    assert_eq!(num(m.grad(y)), 1.0);
}

#[test]
fn a_backward_pass_leaves_other_gradients_alone() {
    let mut g = Graph::new();
    let x = Value::new(&mut g, bits(3.0));
    let other = Value::new(&mut g, bits(4.0));
    let y = x.mul(&mut g, x);
    let later = y.add(&mut g, other);
    let mut m = evaluated(&g);
    m.complete(&Instr::Load { dst: Reg::Grad(other.inner), bits: bits(5.0) }, 0);
    m.complete(&Instr::Load { dst: Reg::Grad(later.inner), bits: bits(6.0) }, 0);
    run(&mut m, &y.backwards(&g));
    assert_eq!(num(m.grad(x)), 6.0);
    assert_eq!(num(m.grad(other)), 5.0);
    assert_eq!(num(m.grad(later)), 6.0);
}

#[test]
fn passes_from_two_roots_do_not_mix() {
    let mut g = Graph::new();
    let x = Value::new(&mut g, bits(2.0));
    let y = Value::new(&mut g, bits(5.0));
    let p = x.mul(&mut g, y);
    let s = x.add(&mut g, y);
    let mut m = evaluated(&g);
    run(&mut m, &p.backwards(&g));
    assert_eq!(num(m.grad(x)), 5.0);
    assert_eq!(num(m.grad(y)), 2.0);
    run(&mut m, &s.backwards(&g));
    assert_eq!(num(m.grad(x)), 1.0);
    assert_eq!(num(m.grad(y)), 1.0);
    assert_eq!(num(m.grad(p)), 1.0);
}

#[test]
fn order_puts_operands_first() {
    let mut g = Graph::new();
    let a = Value::new(&mut g, bits(1.0));
    let b = Value::new(&mut g, bits(2.0));
    let c = b.mul(&mut g, a);
    assert_eq!(g.topological_order(c), vec![1, 0, 2]);
    assert_eq!(g.topological_order(a), vec![0]);
}

#[test]
fn order_holds_a_shared_node_once() {
    let mut g = Graph::new();
    let x = Value::new(&mut g, bits(3.0));
    let unused = Value::new(&mut g, bits(9.0));
    let square = x.mul(&mut g, x);
    let sum = square.add(&mut g, x);
    let top = sum.mul(&mut g, square);
    assert_eq!(unused.inner, 1);
    assert_eq!(g.topological_order(top), vec![0, 2, 3, 4]);
    assert_eq!(g.topological_order(square), vec![0, 2]);
}

#[test]
fn order_of_a_long_chain() {
    let mut g = Graph::new();
    let mut v = Value::new(&mut g, bits(1.0));
    for _ in 0..100_000 {
        v = v.tanh(&mut g);
    }
    let order = g.topological_order(v);
    assert_eq!(order.len(), 100_001);
    assert!(order.iter().enumerate().all(|(i, x)| *x == i));
}

#[test]
fn forward_code_of_each_operation() {
    let d = |i: usize| Reg::Data(i);
    assert_eq!(
        InnerValue { data: 7, op: None }.forward(4),
        vec![Instr::Load { dst: d(4), bits: 7 }]
    );
    assert_eq!(
        InnerValue { data: 0, op: Some(Operation::Add(1, 2)) }.forward(3),
        vec![Instr::Apply { prim: Prim::Add, dst: d(3), lhs: d(1), rhs: d(2) }]
    );
    assert_eq!(
        InnerValue { data: 0, op: Some(Operation::Mul(1, 2)) }.forward(3),
        vec![Instr::Apply { prim: Prim::Mul, dst: d(3), lhs: d(1), rhs: d(2) }]
    );
    assert_eq!(
        InnerValue { data: 0, op: Some(Operation::Exp(1)) }.forward(3),
        vec![Instr::Apply { prim: Prim::Exp, dst: d(3), lhs: d(1), rhs: d(1) }]
    );
    assert_eq!(
        InnerValue { data: 0, op: Some(Operation::Pow(1, 99)) }.forward(3),
        vec![
            Instr::Load { dst: Reg::First, bits: 99 },
            Instr::Apply { prim: Prim::Pow, dst: d(3), lhs: d(1), rhs: Reg::First },
        ]
    );
    assert_eq!(
        InnerValue { data: 0, op: Some(Operation::Tanh(1)) }.forward(3),
        vec![
            Instr::Load { dst: Reg::First, bits: TWO },
            Instr::Apply { prim: Prim::Mul, dst: Reg::First, lhs: Reg::First, rhs: d(1) },
            Instr::Apply { prim: Prim::Exp, dst: Reg::First, lhs: Reg::First, rhs: Reg::First },
            Instr::Load { dst: Reg::Second, bits: ONE },
            Instr::Apply { prim: Prim::Sub, dst: d(3), lhs: Reg::First, rhs: Reg::Second },
            Instr::Apply { prim: Prim::Add, dst: Reg::First, lhs: Reg::First, rhs: Reg::Second },
            Instr::Apply { prim: Prim::Div, dst: d(3), lhs: d(3), rhs: Reg::First },
        ]
    );
}

#[test]
fn backward_code_of_a_square() {
    let mut g = Graph::new();
    let x = Value::new(&mut g, bits(3.0));
    let y = x.mul(&mut g, x);
    let d = |i: usize| Reg::Data(i);
    let gr = |i: usize| Reg::Grad(i);
    assert_eq!(
        y.backwards(&g),
        vec![
            Instr::Load { dst: gr(0), bits: ZERO },
            Instr::Load { dst: gr(1), bits: ZERO },
            Instr::Load { dst: gr(1), bits: ONE },
            Instr::Apply { prim: Prim::Mul, dst: Reg::First, lhs: d(0), rhs: gr(1) },
            Instr::Apply { prim: Prim::Add, dst: gr(0), lhs: gr(0), rhs: Reg::First },
            Instr::Apply { prim: Prim::Mul, dst: Reg::First, lhs: d(0), rhs: gr(1) },
            Instr::Apply { prim: Prim::Add, dst: gr(0), lhs: gr(0), rhs: Reg::First },
        ]
    );
    assert_eq!(
        g.forward(),
        vec![
            Instr::Load { dst: d(0), bits: bits(3.0) },
            Instr::Apply { prim: Prim::Mul, dst: d(1), lhs: d(0), rhs: d(0) },
        ]
    );
}

#[test]
fn backward_code_of_each_operation() {
    let d = |i: usize| Reg::Data(i);
    let gr = |i: usize| Reg::Grad(i);
    assert_eq!(
        Operation::Add(1, 2).backward(3),
        vec![
            Instr::Apply { prim: Prim::Add, dst: gr(1), lhs: gr(1), rhs: gr(3) },
            Instr::Apply { prim: Prim::Add, dst: gr(2), lhs: gr(2), rhs: gr(3) },
        ]
    );
    assert_eq!(
        Operation::Exp(1).backward(3),
        vec![
            Instr::Apply { prim: Prim::Mul, dst: Reg::First, lhs: d(3), rhs: gr(3) },
            Instr::Apply { prim: Prim::Add, dst: gr(1), lhs: gr(1), rhs: Reg::First },
        ]
    );
    assert_eq!(
        Operation::Tanh(1).backward(3),
        vec![
            Instr::Apply { prim: Prim::Mul, dst: Reg::First, lhs: d(3), rhs: d(3) },
            Instr::Load { dst: Reg::Second, bits: ONE },
            Instr::Apply { prim: Prim::Sub, dst: Reg::First, lhs: Reg::Second, rhs: Reg::First },
            Instr::Apply { prim: Prim::Mul, dst: Reg::First, lhs: Reg::First, rhs: gr(3) },
            Instr::Apply { prim: Prim::Add, dst: gr(1), lhs: gr(1), rhs: Reg::First },
        ]
    );
    assert_eq!(
        Operation::Pow(1, bits(3.0)).backward(2),
        vec![
            Instr::Load { dst: Reg::First, bits: bits(3.0) },
            Instr::Load { dst: Reg::Second, bits: ONE },
            Instr::Apply { prim: Prim::Sub, dst: Reg::Second, lhs: Reg::First, rhs: Reg::Second },
            Instr::Apply { prim: Prim::Pow, dst: Reg::Second, lhs: d(1), rhs: Reg::Second },
            Instr::Apply { prim: Prim::Mul, dst: Reg::First, lhs: Reg::First, rhs: Reg::Second },
            Instr::Apply { prim: Prim::Mul, dst: Reg::First, lhs: Reg::First, rhs: gr(2) },
            Instr::Apply { prim: Prim::Add, dst: gr(1), lhs: gr(1), rhs: Reg::First },
        ]
    );
    assert_eq!(
        Operation::Pow(1, bits(-0.0)).backward(2),
        vec![
            Instr::Load { dst: Reg::First, bits: ZERO },
            Instr::Apply { prim: Prim::Mul, dst: Reg::First, lhs: Reg::First, rhs: gr(2) },
            Instr::Apply { prim: Prim::Add, dst: gr(1), lhs: gr(1), rhs: Reg::First },
        ]
    );
    assert_eq!(InnerValue { data: 5, op: None }.backwards(0), vec![]);
    assert_eq!(
        InnerValue { data: 0, op: Some(Operation::Add(1, 2)) }.backwards(3),
        Operation::Add(1, 2).backward(3)
    );
}

#[test]
fn operands_of_a_node() {
    let leaf = InnerValue { data: 1, op: None };
    assert_eq!(leaf.arity(), 0);
    let sum = InnerValue { data: 0, op: Some(Operation::Add(4, 7)) };
    assert_eq!(sum.arity(), 2);
    assert_eq!(sum.operand(0), 4);
    assert_eq!(sum.operand(1), 7);
    let power = InnerValue { data: 0, op: Some(Operation::Pow(3, 0)) };
    assert_eq!(power.arity(), 1);
    assert_eq!(power.operand(0), 3);
}

#[test]
fn set_data_changes_a_leaf_only() {
    let mut g = Graph::new();
    let x = Value::new(&mut g, bits(3.0));
    let y = x.mul(&mut g, x);
    assert!(x.set_data(&mut g, bits(4.0)));
    assert!(!y.set_data(&mut g, bits(4.0)));
    assert_eq!(g.node(x), InnerValue { data: bits(4.0), op: None });
    assert_eq!(g.node(y), InnerValue { data: 0, op: Some(Operation::Mul(0, 0)) });
    let m = differentiated(&g, y);
    assert_eq!(num(m.data(y)), 16.0);
    assert_eq!(num(m.grad(x)), 8.0);
}
