use vstd::prelude::*;
use crate::engine::{Graph, Op};

verus! {

/// Ids `lo`, `lo + 1`, ..., `hi - 1`.
pub open spec fn fresh_ids(lo: int, hi: int) -> Seq<usize> {
    Seq::new((hi - lo) as nat, |i: int| (lo + i) as usize)
}

/// `n` new leaf nodes.
pub open spec fn leaves(n: nat) -> Seq<Op> {
    Seq::new(n, |i: int| Op::Leaf)
}

/// `i` is one of `ids`.
pub open spec fn lists(ids: Seq<usize>, i: int) -> bool {
    exists|k: int| 0 <= k < ids.len() && ids[k] as int == i
}

/// `grads` with the slot of every id in `ids` set to `zero`.
pub open spec fn reset_at<T>(grads: Seq<T>, ids: Seq<usize>, zero: T) -> Seq<T> {
    Seq::new(grads.len(), |i: int| if lists(ids, i) { zero } else { grads[i] })
}

/// Resetting gradients is idempotent: zeroing a module's gradients twice in a row leaves
/// the same gradients as zeroing them once, and every parameter's slot then holds `zero`.
pub proof fn lemma_zero_grad_idempotent<M: Module, T>(m: &M, grads: Seq<T>, zero: T)
    ensures
        reset_at(reset_at(grads, m.param_ids(), zero), m.param_ids(), zero) == reset_at(
            grads,
            m.param_ids(),
            zero,
        ),
        forall|k: int|
            0 <= k < m.param_ids().len() && m.param_ids()[k] < grads.len() ==> #[trigger] reset_at(
                grads,
                m.param_ids(),
                zero,
            )[m.param_ids()[k] as int] == zero,
{
    let ids = m.param_ids();
    assert(reset_at(reset_at(grads, ids, zero), ids, zero) =~= reset_at(grads, ids, zero));
    assert forall|k: int| 0 <= k < ids.len() && ids[k] < grads.len() implies #[trigger] reset_at(
        grads,
        ids,
        zero,
    )[ids[k] as int] == zero by {
        assert(lists(ids, ids[k] as int));
    }
}

/// Sets `grads[p] = zero` for every `p` in `ids`.
fn reset_slots<T: Copy>(ids: &Vec<usize>, grads: &mut Vec<T>, zero: T)
    requires
        forall|k: int| 0 <= k < ids@.len() ==> ids@[k] < old(grads)@.len(),
    ensures
        final(grads)@ == reset_at(old(grads)@, ids@, zero),
{
    let ghost g0 = grads@;
    let mut i: usize = 0;
    while i < ids.len()
        invariant
            i <= ids@.len(),
            grads@.len() == g0.len(),
            forall|k: int| 0 <= k < ids@.len() ==> ids@[k] < g0.len(),
            grads@ == reset_at(g0, ids@.subrange(0, i as int), zero),
        decreases ids@.len() - i,
    {
        let p = ids[i];
        grads.set(p, zero);
        proof {
            let pre = ids@.subrange(0, i as int);
            let post = ids@.subrange(0, i + 1);
            assert forall|j: int| 0 <= j < g0.len() implies grads@[j] == reset_at(g0, post, zero)[j] by {
                if lists(post, j) {
                    let k = choose|k: int| 0 <= k < post.len() && post[k] as int == j;
                    if k < i {
                        assert(pre[k] as int == j);
                    }
                }
                if lists(pre, j) {
                    let k = choose|k: int| 0 <= k < pre.len() && pre[k] as int == j;
                    assert(post[k] as int == j);
                }
                assert(post[i as int] == p);
            }
            assert(grads@ =~= reset_at(g0, post, zero));
        }
        i += 1;
    }
    proof {
        assert(ids@.subrange(0, ids@.len() as int) =~= ids@);
    }
}

/// Something that owns parameter nodes: it lists them and resets their gradients.
pub trait Module {
    /// The owned parameter nodes, in order.
    spec fn param_ids(&self) -> Seq<usize>;

    /// The owned parameter nodes, in order.
    fn parameters(&self) -> (r: Vec<usize>)
        ensures
            r@ == self.param_ids(),
    ;

    /// Sets the gradient slot of every owned parameter to `zero` and leaves the others as
    /// they were. Gradients are indexed by node id.
    fn zero_grad<T: Copy>(&self, grads: &mut Vec<T>, zero: T)
        requires
            forall|k: int|
                0 <= k < self.param_ids().len() ==> #[trigger] self.param_ids()[k] < old(grads)@.len(),
        ensures
            final(grads)@ == reset_at(old(grads)@, self.param_ids(), zero),
    ;
}

/// The node holding the running sum after `k` terms, when the terms' nodes are appended
/// from id `base` on (two per term: the product, then the sum).
pub open spec fn acc_node(b: usize, base: int, k: int) -> usize {
    if k == 0 {
        b
    } else {
        (base + 2 * k - 1) as usize
    }
}

/// The nodes appended for the first `k` terms of `b + w[0] * x[0] + w[1] * x[1] + ...`.
pub open spec fn sum_ops(w: Seq<usize>, b: usize, x: Seq<usize>, base: int, k: nat) -> Seq<Op>
    decreases k,
{
    if k == 0 {
        seq![]
    } else {
        sum_ops(w, b, x, base, (k - 1) as nat) + seq![
            Op::Mul(w[k - 1], x[k - 1]),
            Op::Add(acc_node(b, base, k - 1), (base + 2 * (k - 1)) as usize),
        ]
    }
}

/// The nodes that applying `n` to `x` appends to a graph of `base` nodes.
pub open spec fn neuron_ops(n: Neuron, x: Seq<usize>, base: int) -> Seq<Op> {
    let k = n.weights().len();
    let s = sum_ops(n.weights(), n.bias(), x, base, k);
    if n.nonlin() {
        s.push(Op::Relu(acc_node(n.bias(), base, k as int)))
    } else {
        s
    }
}

/// The output node of applying `n` to `x` in a graph of `base` nodes.
pub open spec fn neuron_out(n: Neuron, x: Seq<usize>, base: int) -> usize {
    let k = n.weights().len() as int;
    if n.nonlin() {
        (base + 2 * k) as usize
    } else {
        acc_node(n.bias(), base, k)
    }
}

/// A weighted sum of its inputs plus a bias, optionally passed through a rectifier.
/// Weights and bias are leaf nodes of a [`Graph`].
pub struct Neuron {
    w: Vec<usize>,
    b: usize,
    nonlin: bool,
}

impl Neuron {
    pub closed spec fn weights(&self) -> Seq<usize> {
        self.w@
    }

    pub closed spec fn bias(&self) -> usize {
        self.b
    }

    pub closed spec fn nonlin(&self) -> bool {
        self.nonlin
    }

    /// Weights in input order, then the bias.
    pub open spec fn params(&self) -> Seq<usize> {
        self.weights().push(self.bias())
    }

    /// Every node the neuron owns exists in a graph of `len` nodes.
    pub open spec fn within(&self, len: int) -> bool {
        forall|k: int| 0 <= k < self.params().len() ==> self.params()[k] < len
    }

    /// A neuron over `nin` inputs: `nin` fresh weight leaves, then a fresh bias leaf.
    /// The caller gives the weights their initial values and the bias zero.
    pub fn new(graph: &mut Graph, nin: usize, nonlin: bool) -> (r: Neuron)
        requires
            old(graph).wf(),
        ensures
            final(graph).wf(),
            final(graph)@ == old(graph)@ + leaves(nin as nat + 1),
            r.weights().len() == nin,
            r.nonlin() == nonlin,
            r.params() == fresh_ids(old(graph)@.len() as int, final(graph)@.len() as int),
    {
        let ghost g0 = graph@;
        let mut w: Vec<usize> = Vec::new();
        let mut i: usize = 0;
        while i < nin
            invariant
                i <= nin,
                graph.wf(),
                graph@ == g0 + leaves(i as nat),
                w@ == fresh_ids(g0.len() as int, g0.len() + i),
            decreases nin - i,
        {
            let id = graph.leaf();
            w.push(id);
            i += 1;
            proof {
                assert(graph@ =~= g0 + leaves(i as nat));
                assert(w@ =~= fresh_ids(g0.len() as int, g0.len() + i));
            }
        }
        let b = graph.leaf();
        let r = Neuron { w, b, nonlin };
        proof {
            assert(graph@ =~= g0 + leaves(nin as nat + 1));
            assert(r.params() =~= fresh_ids(g0.len() as int, graph@.len() as int));
        }
        r
    }

    /// Number of inputs the neuron takes.
    pub fn nin(&self) -> (r: usize)
        ensures
            r == self.weights().len(),
    {
        self.w.len()
    }

    /// Whether the output goes through a rectifier.
    pub fn is_nonlin(&self) -> (r: bool)
        ensures
            r == self.nonlin(),
    {
        self.nonlin
    }

    /// Builds `bias + w[0] * x[0] + ... + w[n-1] * x[n-1]` in the graph, the sum taken
    /// from the bias on, and a rectifier over it when the neuron is nonlinear; returns the
    /// output node. The input count must equal the weight count.
    pub fn call(&self, graph: &mut Graph, x: &[usize]) -> (r: usize)
        requires
            old(graph).wf(),
            self.within(old(graph)@.len() as int),
            x@.len() == self.weights().len(),
            forall|k: int| 0 <= k < x@.len() ==> x@[k] < old(graph)@.len(),
        ensures
            final(graph).wf(),
            final(graph)@ == old(graph)@ + neuron_ops(*self, x@, old(graph)@.len() as int),
            r == neuron_out(*self, x@, old(graph)@.len() as int),
            r < final(graph)@.len(),
    {
        let ghost g0 = graph@;
        let ghost base = g0.len() as int;
        let n = self.w.len();
        proof {
            assert(self.params()[n as int] == self.b);
        }
        let mut act = self.b;
        let mut i: usize = 0;
        while i < n
            invariant
                i <= n,
                n == self.weights().len(),
                x@.len() == n,
                self.within(base),
                forall|k: int| 0 <= k < x@.len() ==> x@[k] < base,
                graph.wf(),
                graph@ == g0 + sum_ops(self.weights(), self.b, x@, base, i as nat),
                graph@.len() == base + 2 * i,
                act == acc_node(self.b, base, i as int),
                act < graph@.len(),
            decreases n - i,
        {
            proof {
                assert(self.params()[i as int] == self.w@[i as int]);
            }
            let m = graph.mul(self.w[i], x[i]);
            act = graph.add(act, m);
            i += 1;
            proof {
                assert(graph@ =~= g0 + sum_ops(self.weights(), self.b, x@, base, i as nat));
            }
        }
        if self.nonlin {
            let r = graph.relu(act);
            proof {
                assert(graph@ =~= g0 + neuron_ops(*self, x@, base));
            }
            r
        } else {
            act
        }
    }
}

impl Module for Neuron {
    open spec fn param_ids(&self) -> Seq<usize> {
        self.params()
    }

    /// The weight nodes, then the bias node.
    fn parameters(&self) -> (r: Vec<usize>) {
        let mut r = self.w.clone();
        r.push(self.b);
        proof {
            assert(r@ =~= self.params());
        }
        r
    }

    /// Resets the gradient slot of each of the neuron's parameters to `zero`.
    fn zero_grad<T: Copy>(&self, grads: &mut Vec<T>, zero: T) {
        let p = self.parameters();
        reset_slots(&p, grads, zero);
    }
}

/// Parameters of the neurons `ns`, neuron by neuron.
pub open spec fn layer_params(ns: Seq<Neuron>) -> Seq<usize>
    decreases ns.len(),
{
    if ns.len() == 0 {
        seq![]
    } else {
        layer_params(ns.drop_last()) + ns.last().params()
    }
}

/// The nodes that applying each of `ns` in turn to `x` appends to a graph of `base` nodes.
pub open spec fn layer_ops(ns: Seq<Neuron>, x: Seq<usize>, base: int) -> Seq<Op>
    decreases ns.len(),
{
    if ns.len() == 0 {
        seq![]
    } else {
        let p = layer_ops(ns.drop_last(), x, base);
        p + neuron_ops(ns.last(), x, base + p.len())
    }
}

/// The output nodes of applying each of `ns` in turn to `x` in a graph of `base` nodes.
pub open spec fn layer_outs(ns: Seq<Neuron>, x: Seq<usize>, base: int) -> Seq<usize>
    decreases ns.len(),
{
    if ns.len() == 0 {
        seq![]
    } else {
        let p = layer_ops(ns.drop_last(), x, base);
        layer_outs(ns.drop_last(), x, base).push(neuron_out(ns.last(), x, base + p.len()))
    }
}

/// Every neuron of `ns` takes `nin` inputs and owns nodes of a graph of `len` nodes.
pub open spec fn neurons_fit(ns: Seq<Neuron>, nin: int, len: int) -> bool {
    forall|j: int| 0 <= j < ns.len() ==> (#[trigger] ns[j]).weights().len() == nin && ns[j].within(len)
}

/// A row of neurons that all read the same inputs.
pub struct Layer {
    neurons: Vec<Neuron>,
}

impl View for Layer {
    type V = Seq<Neuron>;

    closed spec fn view(&self) -> Seq<Neuron> {
        self.neurons@
    }
}

impl Layer {
    /// `nout` neurons over `nin` inputs each, their parameters fresh leaves of the graph.
    pub fn new(graph: &mut Graph, nin: usize, nout: usize, nonlin: bool) -> (r: Layer)
        requires
            old(graph).wf(),
        ensures
            final(graph).wf(),
            r@.len() == nout,
            forall|j: int| 0 <= j < nout ==> (#[trigger] r@[j]).weights().len() == nin && r@[j].nonlin() == nonlin,
            forall|j: int| 0 <= j < nout ==> (#[trigger] r@[j]).within(final(graph)@.len() as int),
            layer_params(r@) == fresh_ids(old(graph)@.len() as int, final(graph)@.len() as int),
            final(graph)@ == old(graph)@ + leaves(layer_params(r@).len()),
    {
        let ghost g0 = graph@;
        let mut neurons: Vec<Neuron> = Vec::new();
        let mut j: usize = 0;
        while j < nout
            invariant
                j <= nout,
                graph.wf(),
                neurons@.len() == j,
                forall|i: int| 0 <= i < j ==> (#[trigger] neurons@[i]).weights().len() == nin && neurons@[i].nonlin() == nonlin,
                forall|i: int| 0 <= i < j ==> (#[trigger] neurons@[i]).within(graph@.len() as int),
                layer_params(neurons@) == fresh_ids(g0.len() as int, graph@.len() as int),
                graph@ == g0 + leaves(layer_params(neurons@).len()),
            decreases nout - j,
        {
            let ghost g1 = graph@;
            let ghost n1 = neurons@;
            let n = Neuron::new(graph, nin, nonlin);
            neurons.push(n);
            j += 1;
            proof {
                assert(neurons@[j - 1] == n);
                assert(forall|k: int| 0 <= k < n.params().len() ==> n.params()[k] < graph@.len());
                assert forall|i: int| 0 <= i < j implies (#[trigger] neurons@[i]).within(graph@.len() as int) by {
                    if i < j - 1 {
                        assert(neurons@[i] == n1[i]);
                        assert(n1[i].within(g1.len() as int));
                    }
                }
                assert(neurons@.drop_last() =~= n1);
                assert(layer_params(neurons@) =~= fresh_ids(g0.len() as int, graph@.len() as int));
                assert(graph@ =~= g0 + leaves(layer_params(neurons@).len()));
            }
        }
        Layer { neurons }
    }

    /// The neurons, in order.
    pub fn neurons(&self) -> (r: &Vec<Neuron>)
        ensures
            r@ == self@,
    {
        &self.neurons
    }

    /// Applies every neuron to the same inputs `x`; returns their outputs in order.
    pub fn call(&self, graph: &mut Graph, x: &[usize]) -> (r: Vec<usize>)
        requires
            old(graph).wf(),
            neurons_fit(self@, x@.len() as int, old(graph)@.len() as int),
            forall|k: int| 0 <= k < x@.len() ==> x@[k] < old(graph)@.len(),
        ensures
            final(graph).wf(),
            final(graph)@ == old(graph)@ + layer_ops(self@, x@, old(graph)@.len() as int),
            r@ == layer_outs(self@, x@, old(graph)@.len() as int),
            forall|k: int| 0 <= k < r@.len() ==> r@[k] < final(graph)@.len(),
            r@.len() == self@.len(),
    {
        let ghost g0 = graph@;
        let ghost base = g0.len() as int;
        let mut out: Vec<usize> = Vec::new();
        let mut j: usize = 0;
        while j < self.neurons.len()
            invariant
                j <= self@.len(),
                graph.wf(),
                base == g0.len(),
                neurons_fit(self@, x@.len() as int, base),
                forall|k: int| 0 <= k < x@.len() ==> x@[k] < base,
                graph@ == g0 + layer_ops(self@.subrange(0, j as int), x@, base),
                out@ == layer_outs(self@.subrange(0, j as int), x@, base),
                forall|k: int| 0 <= k < out@.len() ==> out@[k] < graph@.len(),
                out@.len() == j,
            decreases self@.len() - j,
        {
            let ghost g1 = graph@;
            let n = &self.neurons[j];
            proof {
                assert(self@[j as int] == *n);
                assert(n.within(base));
            }
            let o = n.call(graph, x);
            out.push(o);
            proof {
                let pre = self@.subrange(0, j as int);
                let post = self@.subrange(0, j + 1);
                assert(post.drop_last() =~= pre);
                assert(post.last() == *n);
                assert(g1.len() == base + layer_ops(pre, x@, base).len());
                assert(layer_ops(post, x@, base) == layer_ops(pre, x@, base) + neuron_ops(*n, x@, g1.len() as int));
                assert(layer_outs(post, x@, base) == layer_outs(pre, x@, base).push(neuron_out(*n, x@, g1.len() as int)));
                assert(graph@ =~= g0 + layer_ops(post, x@, base));
                assert(out@ =~= layer_outs(post, x@, base));
            }
            j += 1;
        }
        proof {
            assert(self@.subrange(0, self@.len() as int) =~= self@);
        }
        out
    }
}

impl Module for Layer {
    open spec fn param_ids(&self) -> Seq<usize> {
        layer_params(self@)
    }

    /// The parameters of every neuron, neuron by neuron.
    fn parameters(&self) -> (r: Vec<usize>) {
        let mut r: Vec<usize> = Vec::new();
        let mut j: usize = 0;
        while j < self.neurons.len()
            invariant
                j <= self@.len(),
                r@ == layer_params(self@.subrange(0, j as int)),
            decreases self@.len() - j,
        {
            let mut p = self.neurons[j].parameters();
            r.append(&mut p);
            proof {
                let post = self@.subrange(0, j + 1);
                assert(post.drop_last() =~= self@.subrange(0, j as int));
                assert(post.last() == self@[j as int]);
                assert(r@ =~= layer_params(post));
            }
            j += 1;
        }
        proof {
            assert(self@.subrange(0, self@.len() as int) =~= self@);
        }
        r
    }

    /// Resets the gradient slot of every parameter of the layer to `zero`.
    fn zero_grad<T: Copy>(&self, grads: &mut Vec<T>, zero: T) {
        let p = self.parameters();
        reset_slots(&p, grads, zero);
    }
}

/// A layer of `ns.len()` neurons over `nin` inputs each owns `(nin + 1) * ns.len()`
/// parameters.
proof fn lemma_layer_param_count(ns: Seq<Neuron>, nin: int)
    requires
        forall|j: int| 0 <= j < ns.len() ==> (#[trigger] ns[j]).weights().len() == nin,
    ensures
        layer_params(ns).len() == (nin + 1) * ns.len(),
    decreases ns.len(),
{
    if ns.len() > 0 {
        let d = ns.drop_last();
        assert forall|j: int| 0 <= j < d.len() implies (#[trigger] d[j]).weights().len() == nin by {
            assert(d[j] == ns[j]);
        }
        lemma_layer_param_count(d, nin);
        assert(ns.last() == ns[ns.len() - 1]);
        let k = ns.len();
        assert((nin + 1) * (k - 1) + (nin + 1) == (nin + 1) * k) by (nonlinear_arith);
    }
}

/// Parameters of the layers `ls`, layer by layer.
pub open spec fn mlp_params(ls: Seq<Layer>) -> Seq<usize>
    decreases ls.len(),
{
    if ls.len() == 0 {
        seq![]
    } else {
        mlp_params(ls.drop_last()) + layer_params(ls.last()@)
    }
}

/// The nodes that applying the layers `ls` in sequence to `x` appends to a graph of
/// `base` nodes, and the output nodes of the last layer (`x` itself when there is none).
#[verifier::opaque]
pub open spec fn mlp_run(ls: Seq<Layer>, x: Seq<usize>, base: int) -> (Seq<Op>, Seq<usize>)
    decreases ls.len(),
{
    if ls.len() == 0 {
        (seq![], x)
    } else {
        let (p, y) = mlp_run(ls.drop_last(), x, base);
        (p + layer_ops(ls.last()@, y, base + p.len()), layer_outs(ls.last()@, y, base + p.len()))
    }
}

/// The number of inputs of layer `i`: `nin` for the first, else the width of the one before.
pub open spec fn input_width(ls: Seq<Layer>, nin: int, i: int) -> int {
    if i == 0 {
        nin
    } else {
        ls[i - 1]@.len() as int
    }
}

/// Each layer of `ls` reads as many inputs as the one before it outputs (`nin` for the
/// first), and all parameters are nodes of a graph of `len` nodes.
#[verifier::opaque]
pub open spec fn layers_fit(ls: Seq<Layer>, nin: int, len: int) -> bool {
    forall|i: int| 0 <= i < ls.len() ==> neurons_fit(#[trigger] ls[i]@, input_width(ls, nin, i), len)
}

/// The number of inputs of a layer sized by `nouts` after `nin` network inputs.
pub open spec fn size_before(nin: int, nouts: Seq<usize>, i: int) -> int {
    if i == 0 {
        nin
    } else {
        nouts[i - 1] as int
    }
}

/// Parameters of a network of `nin` inputs and layer widths `nouts`: each layer owns one
/// weight per input and one bias, per neuron.
pub open spec fn param_count(nin: int, nouts: Seq<usize>) -> int
    decreases nouts.len(),
{
    if nouts.len() == 0 {
        0
    } else {
        param_count(nin, nouts.drop_last()) + (size_before(nin, nouts, nouts.len() - 1) + 1)
            * nouts.last()
    }
}

proof fn lemma_layer_fits_at(ls: Seq<Layer>, nin: int, base: int, len: int, i: int)
    requires
        layers_fit(ls, nin, base),
        base <= len,
        0 <= i < ls.len(),
    ensures
        neurons_fit(ls[i]@, input_width(ls, nin, i), len),
{
    let ns = ls[i]@;
    reveal(layers_fit);
    assert(neurons_fit(ns, input_width(ls, nin, i), base));
    assert forall|j: int| 0 <= j < ns.len() implies (#[trigger] ns[j]).weights().len() == input_width(
        ls,
        nin,
        i,
    ) && ns[j].within(len) by {
        assert(ns[j].within(base));
    }
}

/// Layers that fit a graph still fit it after more nodes are appended.
pub proof fn lemma_layers_fit_grow(ls: Seq<Layer>, nin: int, len: int, len2: int)
    requires
        layers_fit(ls, nin, len),
        len <= len2,
    ensures
        layers_fit(ls, nin, len2),
{
    assert forall|i: int| 0 <= i < ls.len() implies neurons_fit(
        #[trigger] ls[i]@,
        input_width(ls, nin, i),
        len2,
    ) by {
        lemma_layer_fits_at(ls, nin, len, len2, i);
    }
    reveal(layers_fit);
}

proof fn lemma_mlp_run_step(ls: Seq<Layer>, x: Seq<usize>, base: int, i: int)
    requires
        0 <= i < ls.len(),
    ensures
        ({
            let (p, y) = mlp_run(ls.subrange(0, i), x, base);
            mlp_run(ls.subrange(0, i + 1), x, base) == (
                p + layer_ops(ls[i]@, y, base + p.len()),
                layer_outs(ls[i]@, y, base + p.len()),
            )
        }),
{
    let post = ls.subrange(0, i + 1);
    assert(post.drop_last() =~= ls.subrange(0, i));
    assert(post.last() == ls[i]);
    reveal(mlp_run);
}

/// A multi-layer perceptron: layers applied in sequence.
pub struct MLP {
    layers: Vec<Layer>,
}

impl View for MLP {
    type V = Seq<Layer>;

    closed spec fn view(&self) -> Seq<Layer> {
        self.layers@
    }
}

impl MLP {
    /// A network over `nin` inputs with one layer per entry of `nouts`, of that many
    /// neurons; every layer but the last is rectified. All parameters are fresh leaves.
    pub fn new(graph: &mut Graph, nin: usize, nouts: &[usize]) -> (r: MLP)
        requires
            old(graph).wf(),
        ensures
            final(graph).wf(),
            r@.len() == nouts@.len(),
            forall|i: int| 0 <= i < nouts@.len() ==> (#[trigger] r@[i])@.len() == nouts@[i],
            forall|i: int, j: int|
                0 <= i < nouts@.len() && 0 <= j < nouts@[i] ==> (#[trigger] r@[i]@[j]).weights().len()
                    == size_before(nin as int, nouts@, i) && r@[i]@[j].nonlin() == (i
                    != nouts@.len() - 1),
            layers_fit(r@, nin as int, final(graph)@.len() as int),
            mlp_params(r@) == fresh_ids(old(graph)@.len() as int, final(graph)@.len() as int),
            final(graph)@ == old(graph)@ + leaves(mlp_params(r@).len()),
            mlp_params(r@).len() == param_count(nin as int, nouts@),
    {
        let ghost g0 = graph@;
        let mut layers: Vec<Layer> = Vec::new();
        let n = nouts.len();
        let mut i: usize = 0;
        while i < n
            invariant
                i <= n,
                n == nouts@.len(),
                graph.wf(),
                layers@.len() == i,
                forall|k: int| 0 <= k < i ==> (#[trigger] layers@[k])@.len() == nouts@[k],
                forall|k: int, j: int|
                    0 <= k < i && 0 <= j < nouts@[k] ==> (#[trigger] layers@[k]@[j]).weights().len()
                        == size_before(nin as int, nouts@, k) && layers@[k]@[j].nonlin() == (k
                        != n - 1),
                forall|k: int, j: int|
                    0 <= k < i && 0 <= j < nouts@[k] ==> (#[trigger] layers@[k]@[j]).within(graph@.len() as int),
                mlp_params(layers@) == fresh_ids(g0.len() as int, graph@.len() as int),
                graph@ == g0 + leaves(mlp_params(layers@).len()),
                mlp_params(layers@).len() == param_count(nin as int, nouts@.subrange(0, i as int)),
            decreases n - i,
        {
            let w = if i == 0 {
                nin
            } else {
                nouts[i - 1]
            };
            let ghost l0 = layers@;
            let ghost g1 = graph@;
            let layer = Layer::new(graph, w, nouts[i], i != n - 1);
            layers.push(layer);
            proof {
                assert(layers@.drop_last() =~= l0);
                assert(layers@[i as int] == layer);
                assert forall|k: int, j: int|
                    0 <= k < i + 1 && 0 <= j < nouts@[k] implies (#[trigger] layers@[k]@[j]).within(graph@.len() as int) by {
                    if k < i {
                        assert(layers@[k] == l0[k]);
                        assert(l0[k]@[j].within(g1.len() as int));
                    }
                }
                lemma_layer_param_count(layer@, w as int);
                let post = nouts@.subrange(0, i + 1);
                assert(post.drop_last() =~= nouts@.subrange(0, i as int));
                assert(size_before(nin as int, post, i as int) == w);
                assert(mlp_params(layers@) =~= fresh_ids(g0.len() as int, graph@.len() as int));
                assert(graph@ =~= g0 + leaves(mlp_params(layers@).len()));
            }
            i += 1;
        }
        let r = MLP { layers };
        proof {
            assert(nouts@.subrange(0, n as int) =~= nouts@);
            let len = graph@.len() as int;
            reveal(layers_fit);
            assert forall|k: int| 0 <= k < r@.len() implies neurons_fit(
                #[trigger] r@[k]@,
                input_width(r@, nin as int, k),
                len,
            ) by {
                assert forall|j: int| 0 <= j < r@[k]@.len() implies (#[trigger] r@[k]@[j]).weights().len()
                    == input_width(r@, nin as int, k) && r@[k]@[j].within(len) by {
                    assert(r@[k]@[j].within(len));
                }
            }
        }
        r
    }

    /// The layers, in order.
    pub fn layers(&self) -> (r: &Vec<Layer>)
        ensures
            r@ == self@,
    {
        &self.layers
    }

    /// Applies the layers in sequence, each to the previous one's outputs; returns the
    /// last layer's outputs.
    pub fn call(&self, graph: &mut Graph, x: Vec<usize>) -> (r: Vec<usize>)
        requires
            old(graph).wf(),
            layers_fit(self@, x@.len() as int, old(graph)@.len() as int),
            forall|k: int| 0 <= k < x@.len() ==> x@[k] < old(graph)@.len(),
        ensures
            final(graph).wf(),
            final(graph)@ == old(graph)@ + mlp_run(self@, x@, old(graph)@.len() as int).0,
            r@ == mlp_run(self@, x@, old(graph)@.len() as int).1,
            forall|k: int| 0 <= k < r@.len() ==> r@[k] < final(graph)@.len(),
    {
        let ghost g0 = graph@;
        let ghost base = g0.len() as int;
        let ghost x0 = x@;
        let mut cur = x;
        let mut i: usize = 0;
        proof {
            reveal(mlp_run);
            assert(self@.subrange(0, 0) =~= Seq::<Layer>::empty());
            assert(g0 =~= g0 + mlp_run(self@.subrange(0, 0), x0, base).0);
        }
        while i < self.layers.len()
            invariant
                i <= self@.len(),
                graph.wf(),
                base == g0.len(),
                layers_fit(self@, x0.len() as int, base),
                graph@ == g0 + mlp_run(self@.subrange(0, i as int), x0, base).0,
                cur@ == mlp_run(self@.subrange(0, i as int), x0, base).1,
                cur@.len() == input_width(self@, x0.len() as int, i as int),
                forall|k: int| 0 <= k < cur@.len() ==> cur@[k] < graph@.len(),
            decreases self@.len() - i,
        {
            let layer = &self.layers[i];
            let ghost g1 = graph@;
            proof {
                assert(self@[i as int] == *layer);
                lemma_layer_fits_at(self@, x0.len() as int, base, g1.len() as int, i as int);
                lemma_mlp_run_step(self@, x0, base, i as int);
            }
            let y = layer.call(graph, cur.as_slice());
            proof {
                assert(graph@ =~= g0 + mlp_run(self@.subrange(0, i + 1), x0, base).0);
            }
            cur = y;
            i += 1;
        }
        proof {
            assert(self@.subrange(0, self@.len() as int) =~= self@);
        }
        cur
    }
}

impl Module for MLP {
    open spec fn param_ids(&self) -> Seq<usize> {
        mlp_params(self@)
    }

    /// The parameters of every layer, layer by layer.
    fn parameters(&self) -> (r: Vec<usize>) {
        let mut r: Vec<usize> = Vec::new();
        let mut i: usize = 0;
        while i < self.layers.len()
            invariant
                i <= self@.len(),
                r@ == mlp_params(self@.subrange(0, i as int)),
            decreases self@.len() - i,
        {
            let mut p = self.layers[i].parameters();
            r.append(&mut p);
            proof {
                let post = self@.subrange(0, i + 1);
                assert(post.drop_last() =~= self@.subrange(0, i as int));
                assert(post.last() == self@[i as int]);
                assert(r@ =~= mlp_params(post));
            }
            i += 1;
        }
        proof {
            assert(self@.subrange(0, self@.len() as int) =~= self@);
        }
        r
    }

    /// Resets the gradient slot of every parameter of the network to `zero`.
    fn zero_grad<T: Copy>(&self, grads: &mut Vec<T>, zero: T) {
        let p = self.parameters();
        reset_slots(&p, grads, zero);
    }
}

} // verus!
