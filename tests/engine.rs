use rustograd::engine::{Contribution, Graph, Op, Rule};

/// Values and gradients beside the graph, applied as the library's schedule says.
struct Tape {
    g: Graph,
    data: Vec<f64>,
    grad: Vec<f64>,
    exp: Vec<f64>,
}

impl Tape {
    fn new() -> Tape {
        Tape { g: Graph::new(), data: Vec::new(), grad: Vec::new(), exp: Vec::new() }
    }

    fn record(&mut self, id: usize, data: f64, exp: f64) -> usize {
        assert_eq!(id, self.data.len());
        self.data.push(data);
        self.grad.push(0.0);
        self.exp.push(exp);
        id
    }

    fn leaf(&mut self, v: f64) -> usize {
        let id = self.g.leaf();
        self.record(id, v, 0.0)
    }

    fn add(&mut self, a: usize, b: usize) -> usize {
        let v = self.data[a] + self.data[b];
        let id = self.g.add(a, b);
        self.record(id, v, 0.0)
    }

    fn mul(&mut self, a: usize, b: usize) -> usize {
        let v = self.data[a] * self.data[b];
        let id = self.g.mul(a, b);
        self.record(id, v, 0.0)
    }

    fn pow(&mut self, a: usize, p: f64) -> usize {
        let v = self.data[a].powf(p);
        let id = self.g.pow(a);
        self.record(id, v, p)
    }

    fn relu(&mut self, a: usize) -> usize {
        let v = self.data[a].max(0.0);
        let id = self.g.relu(a);
        self.record(id, v, 0.0)
    }

    fn addc(&mut self, a: usize, c: f64) -> usize {
        let l = self.leaf(c);
        self.add(a, l)
    }

    fn cadd(&mut self, c: f64, a: usize) -> usize {
        let l = self.leaf(c);
        self.add(l, a)
    }

    fn mulc(&mut self, a: usize, c: f64) -> usize {
        let l = self.leaf(c);
        self.mul(a, l)
    }

    fn cmul(&mut self, c: f64, a: usize) -> usize {
        let l = self.leaf(c);
        self.mul(l, a)
    }

    fn neg(&mut self, a: usize) -> usize {
        self.mulc(a, -1.0)
    }

    fn sub(&mut self, a: usize, b: usize) -> usize {
        let nb = self.neg(b);
        self.add(a, nb)
    }

    fn div(&mut self, a: usize, b: usize) -> usize {
        let inv = self.pow(b, -1.0);
        self.mul(a, inv)
    }

    fn divc(&mut self, a: usize, c: f64) -> usize {
        let l = self.leaf(c);
        self.div(a, l)
    }

    fn cdiv(&mut self, c: f64, a: usize) -> usize {
        let l = self.leaf(c);
        self.div(l, a)
    }

    fn backward(&mut self, root: usize) {
        let schedule = self.g.backward(root);
        self.grad[root] = 1.0;
        for c in schedule {
            let g = self.grad[c.from];
            let amount = match c.rule {
                Rule::Pass => g,
                Rule::Scale(k) => self.data[k] * g,
                Rule::Power => {
                    let p = self.exp[c.from];
                    p * self.data[c.to].powf(p - 1.0) * g
                }
                Rule::Gate => {
                    if self.data[c.from] > 0.0 {
                        g
                    } else {
                        0.0
                    }
                }
            };
            self.grad[c.to] += amount;
        }
    }
}

#[test]
fn sanity_check() {
    let mut t = Tape::new();
    let x = t.leaf(-4.0);
    let x2 = t.cmul(2.0, x);
    let x2p = t.addc(x2, 2.0);
    let z = t.add(x2p, x);
    let zr = t.relu(z);
    let zx = t.mul(z, x);
    let q = t.add(zr, zx);
    let zz = t.mul(z, z);
    let h = t.relu(zz);
    let hq = t.add(h, q);
    let qx = t.mul(q, x);
    let y = t.add(hq, qx);
    t.backward(y);

    assert_eq!(t.data[y], -20.0);
    assert_eq!(t.grad[x], 46.0);
}

#[test]
fn more_ops() {
    let mut t = Tape::new();
    let a = t.leaf(-4.0);
    let b = t.leaf(2.0);
    let mut c = t.add(a, b);
    let ab = t.mul(a, b);
    let b3 = t.pow(b, 3.0);
    let mut d = t.add(ab, b3);
    // c += c + 1
    let c1 = t.addc(c, 1.0);
    c = t.add(c, c1);
    // c += 1 + c + (-a)
    let one_c = t.cadd(1.0, c);
    let na = t.neg(a);
    let rhs = t.add(one_c, na);
    c = t.add(c, rhs);
    // d += d * 2 + (b + a).relu()
    let d2 = t.mulc(d, 2.0);
    let ba = t.add(b, a);
    let ba_r = t.relu(ba);
    let rhs = t.add(d2, ba_r);
    d = t.add(d, rhs);
    // d += 3 * d + (b - a).relu()
    let d3 = t.cmul(3.0, d);
    let bma = t.sub(b, a);
    let bma_r = t.relu(bma);
    let rhs = t.add(d3, bma_r);
    d = t.add(d, rhs);
    let e = t.sub(c, d);
    let f = t.pow(e, 2.0);
    let mut g = t.divc(f, 2.0);
    let tf = t.cdiv(10.0, f);
    g = t.add(g, tf);
    t.backward(g);

    let expected_a_grad = 138.83381924198252;
    let expected_b_grad = 645.5772594752186;
    let expected_g_data = 24.70408163265306;
    let tol = 1e-6;

    assert!((t.data[g] - expected_g_data).abs() < tol);
    assert!((t.grad[a] - expected_a_grad).abs() < tol);
    assert!((t.grad[b] - expected_b_grad).abs() < tol);
}

#[test]
fn leaf_starts_with_zero_gradient() {
    let mut t = Tape::new();
    let a = t.leaf(3.5);
    let b = t.leaf(-2.0);
    let c = t.mul(a, b);
    assert_eq!(t.grad[a], 0.0);
    assert_eq!(t.grad[b], 0.0);
    assert_eq!(t.grad[c], 0.0);
    assert_eq!(t.g.op(a), Op::Leaf);
    assert_eq!(t.g.op(c), Op::Mul(a, b));
}

#[test]
fn shared_subexpression_accumulates_both_uses() {
    let mut t = Tape::new();
    let x = t.leaf(3.0);
    let z = t.addc(x, 1.0);
    let y = t.mul(z, z);
    let schedule = t.g.backward(y);
    assert_eq!(
        schedule[0..2].to_vec(),
        vec![
            Contribution { from: y, to: z, rule: Rule::Scale(z) },
            Contribution { from: y, to: z, rule: Rule::Scale(z) },
        ]
    );
    t.backward(y);
    assert_eq!(t.data[y], 16.0);
    assert_eq!(t.grad[z], 8.0);
    assert_eq!(t.grad[x], 8.0);
}

#[test]
fn relu_at_zero_passes_no_gradient() {
    let mut t = Tape::new();
    let a = t.leaf(0.0);
    let r = t.relu(a);
    let y = t.mulc(r, 5.0);
    t.backward(y);
    assert_eq!(t.data[r], 0.0);
    assert_eq!(t.grad[a], 0.0);

    let mut t = Tape::new();
    let a = t.leaf(-1.0);
    let r = t.relu(a);
    t.backward(r);
    assert_eq!(t.grad[a], 0.0);

    let mut t = Tape::new();
    let a = t.leaf(2.0);
    let r = t.relu(a);
    t.backward(r);
    assert_eq!(t.grad[a], 1.0);
}

fn composite(x: f64) -> (f64, f64) {
    let mut t = Tape::new();
    let xn = t.leaf(x);
    let sq = t.pow(xn, 2.0);
    let s = t.addc(xn, 3.0);
    let p = t.mul(sq, s);
    let r = t.relu(s);
    let q = t.div(p, r);
    let y = t.sub(q, xn);
    t.backward(y);
    (t.data[y], t.grad[xn])
}

#[test]
fn gradient_matches_finite_differences() {
    let eps = 1e-6;
    for &x in &[0.7, 1.5, -2.2, 4.0] {
        let (_, grad) = composite(x);
        let (hi, _) = composite(x + eps);
        let (lo, _) = composite(x - eps);
        let numeric = (hi - lo) / (2.0 * eps);
        assert!((grad - numeric).abs() < 1e-4, "x = {}: {} vs {}", x, grad, numeric);
    }
}

#[test]
fn topological_order_is_post_order() {
    let mut g = Graph::new();
    let a = g.leaf();
    let b = g.leaf();
    let unused = g.leaf();
    let c = g.add(a, b);
    let d = g.mul(c, a);
    let e = g.relu(d);
    let f = g.pow(e);
    let order = g.build_topo(f);
    assert_eq!(order, vec![a, b, c, d, e, f]);
    assert!(!order.contains(&unused));
    assert_eq!(g.build_topo(a), vec![a]);
    assert_eq!(g.len(), 7);
}

#[test]
fn schedule_follows_reverse_order() {
    let mut g = Graph::new();
    let a = g.leaf();
    let b = g.leaf();
    let c = g.mul(a, b);
    let d = g.pow(c);
    let e = g.relu(d);
    let s = g.backward(e);
    assert_eq!(
        s,
        vec![
            Contribution { from: e, to: d, rule: Rule::Gate },
            Contribution { from: d, to: c, rule: Rule::Power },
            Contribution { from: c, to: a, rule: Rule::Scale(b) },
            Contribution { from: c, to: b, rule: Rule::Scale(a) },
        ]
    );
    assert!(g.backward(a).is_empty());
    let order = vec![a, c];
    assert_eq!(
        g.backward_schedule(&order),
        vec![
            Contribution { from: c, to: a, rule: Rule::Scale(b) },
            Contribution { from: c, to: b, rule: Rule::Scale(a) },
        ]
    );
}

#[test]
fn add_of_same_node_twice() {
    let mut t = Tape::new();
    let x = t.leaf(5.0);
    let y = t.add(x, x);
    t.backward(y);
    assert_eq!(t.data[y], 10.0);
    assert_eq!(t.grad[x], 2.0);
}

#[test]
fn division_by_zero_propagates_infinity() {
    let mut t = Tape::new();
    let one = t.leaf(1.0);
    let z = t.leaf(0.0);
    let q = t.div(one, z);
    assert!(t.data[q].is_infinite());
}
