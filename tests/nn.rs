use rustograd::engine::{Graph, Op};
use rustograd::nn::{Layer, Module, Neuron, MLP};

#[test]
fn network_parameter_count() {
    let mut g = Graph::new();
    let model = MLP::new(&mut g, 2, &[16, 16, 1]);
    let params = model.parameters();
    assert_eq!(params.len(), 2 * 16 + 16 + 16 * 16 + 16 + 16 * 1 + 1);
    assert_eq!(params.len(), 337);
    assert_eq!(params, (0..337).collect::<Vec<usize>>());
    assert_eq!(g.len(), 337);
    assert_eq!(model.layers().len(), 3);
    assert!(model.layers()[0].neurons()[0].is_nonlin());
    assert!(model.layers()[1].neurons()[15].is_nonlin());
    assert!(!model.layers()[2].neurons()[0].is_nonlin());
    assert_eq!(model.layers()[1].neurons()[3].nin(), 16);
}

#[test]
fn neuron_parameters_are_weights_then_bias() {
    let mut g = Graph::new();
    let x0 = g.leaf();
    let n = Neuron::new(&mut g, 3, true);
    assert_eq!(n.parameters(), vec![1, 2, 3, 4]);
    assert_eq!(n.nin(), 3);
    for i in 0..5 {
        assert_eq!(g.op(i), Op::Leaf);
    }
    let _ = x0;
}

#[test]
fn neuron_call_builds_weighted_sum() {
    let mut g = Graph::new();
    let n = Neuron::new(&mut g, 2, true);
    let x0 = g.leaf();
    let x1 = g.leaf();
    let out = n.call(&mut g, &[x0, x1]);
    // weights 0, 1, bias 2, inputs 3, 4
    assert_eq!(g.op(5), Op::Mul(0, 3));
    assert_eq!(g.op(6), Op::Add(2, 5));
    assert_eq!(g.op(7), Op::Mul(1, 4));
    assert_eq!(g.op(8), Op::Add(6, 7));
    assert_eq!(g.op(9), Op::Relu(8));
    assert_eq!(out, 9);
    assert_eq!(g.len(), 10);

    let lin = Neuron::new(&mut g, 1, false);
    let out = lin.call(&mut g, &[x0]);
    assert_eq!(g.op(out), Op::Add(11, out - 1));
    assert_eq!(g.op(out - 1), Op::Mul(10, x0));
}

#[test]
fn layer_and_network_outputs() {
    let mut g = Graph::new();
    let layer = Layer::new(&mut g, 2, 3, false);
    assert_eq!(layer.parameters().len(), 9);
    let x0 = g.leaf();
    let x1 = g.leaf();
    let outs = layer.call(&mut g, &[x0, x1]);
    assert_eq!(outs.len(), 3);
    for o in &outs {
        assert!(matches!(g.op(*o), Op::Add(_, _)));
    }

    let model = MLP::new(&mut g, 2, &[4, 1]);
    let y = model.call(&mut g, vec![x0, x1]);
    assert_eq!(y.len(), 1);
    assert_eq!(y[0], g.len() - 1);
    let hidden = model.call(&mut g, vec![x0, x1]);
    assert_ne!(hidden, y);
}

#[test]
fn zero_grad_twice_equals_once() {
    let mut g = Graph::new();
    let model = MLP::new(&mut g, 2, &[3, 1]);
    let extra = g.leaf();
    let mut grads: Vec<f64> = (0..g.len()).map(|i| i as f64 + 0.5).collect();
    model.zero_grad(&mut grads, 0.0);
    let once = grads.clone();
    model.zero_grad(&mut grads, 0.0);
    assert_eq!(grads, once);
    for p in model.parameters() {
        assert_eq!(grads[p], 0.0);
    }
    assert_eq!(grads[extra], extra as f64 + 0.5);
}

#[test]
fn empty_network_passes_inputs_through() {
    let mut g = Graph::new();
    let model = MLP::new(&mut g, 2, &[]);
    assert!(model.parameters().is_empty());
    let x0 = g.leaf();
    let x1 = g.leaf();
    assert_eq!(model.call(&mut g, vec![x0, x1]), vec![x0, x1]);
    assert_eq!(g.len(), 2);
}
