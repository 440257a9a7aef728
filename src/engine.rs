use vstd::prelude::*;

verus! {

/// How a node was produced; operands are ids of nodes created strictly earlier.
#[derive(Clone, Copy, Debug, PartialEq, Eq, Structural)]
pub enum Op {
    Leaf,
    Add(usize, usize),
    Mul(usize, usize),
    /// The exponent is a plain scalar kept by the caller alongside the node's value.
    Pow(usize),
    Relu(usize),
}

/// Every operand of `op` is a node created before node `i`.
pub open spec fn op_wf(op: Op, i: int) -> bool {
    match op {
        Op::Leaf => true,
        Op::Add(a, b) => a < i && b < i,
        Op::Mul(a, b) => a < i && b < i,
        Op::Pow(a) => a < i,
        Op::Relu(a) => a < i,
    }
}

/// `u` is one of the operands of `op`.
pub open spec fn has_operand(op: Op, u: int) -> bool {
    match op {
        Op::Leaf => false,
        Op::Add(a, b) => a == u || b == u,
        Op::Mul(a, b) => a == u || b == u,
        Op::Pow(a) => a == u,
        Op::Relu(a) => a == u,
    }
}

/// An arena is well formed when every edge points to an earlier node.
pub open spec fn arena_wf(ops: Seq<Op>) -> bool {
    forall|i: int| 0 <= i < ops.len() ==> #[trigger] op_wf(ops[i], i)
}

/// `u` is `v` itself or lies below `v` through operand edges.
pub open spec fn reaches(ops: Seq<Op>, v: int, u: int) -> bool
    decreases v,
{
    if v == u {
        true
    } else if v < 0 || v >= ops.len() {
        false
    } else {
        match ops[v] {
            Op::Leaf => false,
            Op::Add(a, b) => (0 <= a < v && reaches(ops, a as int, u)) || (0 <= b < v
                && reaches(ops, b as int, u)),
            Op::Mul(a, b) => (0 <= a < v && reaches(ops, a as int, u)) || (0 <= b < v
                && reaches(ops, b as int, u)),
            Op::Pow(a) => 0 <= a < v && reaches(ops, a as int, u),
            Op::Relu(a) => 0 <= a < v && reaches(ops, a as int, u),
        }
    }
}

/// Each operand of every node in `s` occurs in `s` before that node.
pub open spec fn operands_first(ops: Seq<Op>, s: Seq<usize>) -> bool {
    forall|k: int, u: int|
        0 <= k < s.len() && has_operand(ops[s[k] as int], u) ==> exists|j: int|
            0 <= j < k && s[j] == u
}

/// `s` lists, once each, exactly the nodes that `root` reaches, every operand before
/// the node that consumes it.
pub open spec fn is_topo_order(ops: Seq<Op>, root: int, s: Seq<usize>) -> bool {
    &&& s.no_duplicates()
    &&& forall|k: int| 0 <= k < s.len() ==> s[k] < ops.len()
    &&& forall|u: usize| s.contains(u) <==> reaches(ops, root, u as int)
    &&& operands_first(ops, s)
}

/// The traversal state: `topo` holds distinct nodes, operands first, and `visited`
/// marks exactly the nodes in `topo`.
spec fn traversal_state(ops: Seq<Op>, topo: Seq<usize>, visited: Seq<bool>) -> bool {
    &&& visited.len() == ops.len()
    &&& topo.no_duplicates()
    &&& forall|k: int| 0 <= k < topo.len() ==> topo[k] < ops.len()
    &&& forall|i: usize| i < visited.len() ==> (visited[i as int] <==> topo.contains(i))
    &&& operands_first(ops, topo)
}

/// Nothing above `v` is reachable from `v`.
pub proof fn lemma_reaches_below(ops: Seq<Op>, v: int, u: int)
    requires
        reaches(ops, v, u),
    ensures
        u <= v,
    decreases v,
{
    if v != u {
        match ops[v] {
            Op::Leaf => {},
            Op::Add(a, b) => {
                if 0 <= a < v && reaches(ops, a as int, u) {
                    lemma_reaches_below(ops, a as int, u);
                } else {
                    lemma_reaches_below(ops, b as int, u);
                }
            },
            Op::Mul(a, b) => {
                if 0 <= a < v && reaches(ops, a as int, u) {
                    lemma_reaches_below(ops, a as int, u);
                } else {
                    lemma_reaches_below(ops, b as int, u);
                }
            },
            Op::Pow(a) => lemma_reaches_below(ops, a as int, u),
            Op::Relu(a) => lemma_reaches_below(ops, a as int, u),
        }
    }
}

/// If `v` reaches `w`, it reaches every operand of `w`.
pub proof fn lemma_reaches_operand(ops: Seq<Op>, v: int, w: int, u: int)
    requires
        arena_wf(ops),
        0 <= w < ops.len(),
        reaches(ops, v, w),
        has_operand(ops[w], u),
    ensures
        reaches(ops, v, u),
    decreases v,
{
    assert(op_wf(ops[w], w));
    if v == w {
        lemma_operand_reached(ops, w, u);
    } else {
        match ops[v] {
            Op::Leaf => {},
            Op::Add(a, b) => {
                if 0 <= a < v && reaches(ops, a as int, w) {
                    lemma_reaches_operand(ops, a as int, w, u);
                } else {
                    lemma_reaches_operand(ops, b as int, w, u);
                }
            },
            Op::Mul(a, b) => {
                if 0 <= a < v && reaches(ops, a as int, w) {
                    lemma_reaches_operand(ops, a as int, w, u);
                } else {
                    lemma_reaches_operand(ops, b as int, w, u);
                }
            },
            Op::Pow(a) => lemma_reaches_operand(ops, a as int, w, u),
            Op::Relu(a) => lemma_reaches_operand(ops, a as int, w, u),
        }
    }
}

proof fn lemma_operand_reached(ops: Seq<Op>, w: int, u: int)
    requires
        0 <= w < ops.len(),
        op_wf(ops[w], w),
        has_operand(ops[w], u),
    ensures
        reaches(ops, w, u),
{
    assert(reaches(ops, u, u));
}

/// A sequence that holds the operands of each of its nodes holds everything those
/// nodes reach.
proof fn lemma_closed_under_reach(ops: Seq<Op>, s: Seq<usize>, x: usize, u: usize)
    requires
        operands_first(ops, s),
        s.contains(x),
        reaches(ops, x as int, u as int),
    ensures
        s.contains(u),
    decreases x,
{
    if x != u {
        let k = choose|k: int| 0 <= k < s.len() && s[k] == x;
        let a: usize = match ops[x as int] {
            Op::Leaf => x,
            Op::Add(a, b) => if 0 <= a < x && reaches(ops, a as int, u as int) { a } else { b },
            Op::Mul(a, b) => if 0 <= a < x && reaches(ops, a as int, u as int) { a } else { b },
            Op::Pow(a) => a,
            Op::Relu(a) => a,
        };
        assert(has_operand(ops[s[k] as int], a as int));
        let j = choose|j: int| 0 <= j < k && s[j] == a as int;
        assert(s.contains(a));
        lemma_closed_under_reach(ops, s, a, u);
    }
}

/// The local derivative rule by which one gradient contribution is formed. With `g` the
/// gradient of the contributing node `from`, the node `to` receives:
#[derive(Clone, Copy, Debug, PartialEq, Eq, Structural)]
pub enum Rule {
    /// `g` (an operand of a sum).
    Pass,
    /// `value(k) * g`, where `k` is the other factor of a product, read at its forward value.
    Scale(usize),
    /// `p * value(to)^(p - 1) * g`, where `p` is the exponent of the power node `from`.
    Power,
    /// `g` when the forward value of the rectifier `from` is positive, nothing otherwise.
    Gate,
}

/// One accumulation step of the backward pass: `to`'s gradient is increased (never
/// overwritten) by an amount formed from `from`'s gradient by `rule`.
#[derive(Clone, Copy, Debug, PartialEq, Eq, Structural)]
pub struct Contribution {
    pub from: usize,
    pub to: usize,
    pub rule: Rule,
}

/// The contributions that node `v` hands to its operands, one per operand slot.
pub open spec fn contributions_of(ops: Seq<Op>, v: usize) -> Seq<Contribution> {
    match ops[v as int] {
        Op::Leaf => seq![],
        Op::Add(a, b) => seq![
            Contribution { from: v, to: a, rule: Rule::Pass },
            Contribution { from: v, to: b, rule: Rule::Pass },
        ],
        Op::Mul(a, b) => seq![
            Contribution { from: v, to: a, rule: Rule::Scale(b) },
            Contribution { from: v, to: b, rule: Rule::Scale(a) },
        ],
        Op::Pow(a) => seq![Contribution { from: v, to: a, rule: Rule::Power }],
        Op::Relu(a) => seq![Contribution { from: v, to: a, rule: Rule::Gate }],
    }
}

/// The contributions of the nodes of `order`, taken in reverse order.
pub open spec fn schedule_of(ops: Seq<Op>, order: Seq<usize>) -> Seq<Contribution>
    decreases order.len(),
{
    if order.len() == 0 {
        seq![]
    } else {
        schedule_of(ops, order.drop_first()) + contributions_of(ops, order[0])
    }
}

/// `s` is the backward schedule of `root` over some topological order of what it reaches.
pub open spec fn is_backward_schedule(ops: Seq<Op>, root: int, s: Seq<Contribution>) -> bool {
    exists|order: Seq<usize>|
        #![trigger schedule_of(ops, order)]
        is_topo_order(ops, root, order) && s == schedule_of(ops, order)
}

/// The computation graph: one operation tag per node, indexed by node id.
pub struct Graph {
    ops: Vec<Op>,
}

impl View for Graph {
    type V = Seq<Op>;

    closed spec fn view(&self) -> Seq<Op> {
        self.ops@
    }
}

impl Graph {
    pub open spec fn wf(&self) -> bool {
        arena_wf(self@)
    }

    /// An empty graph.
    pub fn new() -> (r: Graph)
        ensures
            r.wf(),
            r@ == Seq::<Op>::empty(),
    {
        Graph { ops: Vec::new() }
    }

    /// Number of nodes created so far.
    pub fn len(&self) -> (r: usize)
        ensures
            r == self@.len(),
    {
        self.ops.len()
    }

    /// The operation that produced node `i`.
    pub fn op(&self, i: usize) -> (r: Op)
        requires
            i < self@.len(),
        ensures
            r == self@[i as int],
    {
        self.ops[i]
    }

    fn push(&mut self, op: Op) -> (r: usize)
        requires
            old(self).wf(),
            op_wf(op, old(self)@.len() as int),
        ensures
            final(self).wf(),
            final(self)@ == old(self)@.push(op),
            r == old(self)@.len(),
    {
        let r = self.ops.len();
        self.ops.push(op);
        proof {
            assert forall|i: int| 0 <= i < self@.len() implies #[trigger] op_wf(self@[i], i) by {
                if i < r {
                    assert(self@[i] == old(self)@[i]);
                }
            }
        }
        r
    }

    /// A new input or parameter node.
    pub fn leaf(&mut self) -> (r: usize)
        requires
            old(self).wf(),
        ensures
            final(self).wf(),
            final(self)@ == old(self)@.push(Op::Leaf),
            r == old(self)@.len(),
    {
        self.push(Op::Leaf)
    }

    /// A new node for `a + b`.
    pub fn add(&mut self, a: usize, b: usize) -> (r: usize)
        requires
            old(self).wf(),
            a < old(self)@.len(),
            b < old(self)@.len(),
        ensures
            final(self).wf(),
            final(self)@ == old(self)@.push(Op::Add(a, b)),
            r == old(self)@.len(),
    {
        self.push(Op::Add(a, b))
    }

    /// A new node for `a * b`.
    pub fn mul(&mut self, a: usize, b: usize) -> (r: usize)
        requires
            old(self).wf(),
            a < old(self)@.len(),
            b < old(self)@.len(),
        ensures
            final(self).wf(),
            final(self)@ == old(self)@.push(Op::Mul(a, b)),
            r == old(self)@.len(),
    {
        self.push(Op::Mul(a, b))
    }

    /// A new node for `a` raised to a scalar exponent.
    pub fn pow(&mut self, a: usize) -> (r: usize)
        requires
            old(self).wf(),
            a < old(self)@.len(),
        ensures
            final(self).wf(),
            final(self)@ == old(self)@.push(Op::Pow(a)),
            r == old(self)@.len(),
    {
        self.push(Op::Pow(a))
    }

    /// A new node for `max(a, 0)`.
    pub fn relu(&mut self, a: usize) -> (r: usize)
        requires
            old(self).wf(),
            a < old(self)@.len(),
        ensures
            final(self).wf(),
            final(self)@ == old(self)@.push(Op::Relu(a)),
            r == old(self)@.len(),
    {
        self.push(Op::Relu(a))
    }

    /// Depth-first post-order from `v`: every node that `v` reaches and that is not yet
    /// visited is appended once, after its operands.
    fn build_topo_from(&self, v: usize, topo: &mut Vec<usize>, visited: &mut Vec<bool>)
        requires
            self.wf(),
            v < self@.len(),
            traversal_state(self@, old(topo)@, old(visited)@),
        ensures
            traversal_state(self@, final(topo)@, final(visited)@),
            final(topo)@.subrange(0, old(topo)@.len() as int) == old(topo)@,
            old(topo)@.len() <= final(topo)@.len(),
            forall|u: usize|
                #![trigger final(topo)@.contains(u)]
                final(topo)@.contains(u) <==> (old(topo)@.contains(u) || reaches(
                    self@,
                    v as int,
                    u as int,
                )),
            !old(topo)@.contains(v) ==> final(topo)@.last() == v,
        decreases v,
    {
        if visited[v] {
            proof {
                assert forall|u: usize| reaches(self@, v as int, u as int) implies #[trigger] topo@.contains(u) by {
                    lemma_closed_under_reach(self@, topo@, v, u);
                }
                assert(topo@.subrange(0, topo@.len() as int) =~= topo@);
            }
            return;
        }
        let ghost topo0 = topo@;
        proof {
            assert(op_wf(self@[v as int], v as int));
        }
        match self.ops[v] {
            Op::Leaf => {},
            Op::Add(a, b) => {
                self.build_topo_from(a, topo, visited);
                self.build_topo_from(b, topo, visited);
            },
            Op::Mul(a, b) => {
                self.build_topo_from(a, topo, visited);
                self.build_topo_from(b, topo, visited);
            },
            Op::Pow(a) => {
                self.build_topo_from(a, topo, visited);
            },
            Op::Relu(a) => {
                self.build_topo_from(a, topo, visited);
            },
        }
        let ghost topo1 = topo@;
        proof {
            if topo1.contains(v) {
                let k = choose|k: int| 0 <= k < topo1.len() && topo1[k] == v;
                match self@[v as int] {
                    Op::Leaf => {},
                    Op::Add(a, b) => {
                        if reaches(self@, a as int, v as int) {
                            lemma_reaches_below(self@, a as int, v as int);
                        } else if reaches(self@, b as int, v as int) {
                            lemma_reaches_below(self@, b as int, v as int);
                        }
                    },
                    Op::Mul(a, b) => {
                        if reaches(self@, a as int, v as int) {
                            lemma_reaches_below(self@, a as int, v as int);
                        } else if reaches(self@, b as int, v as int) {
                            lemma_reaches_below(self@, b as int, v as int);
                        }
                    },
                    Op::Pow(a) => {
                        if reaches(self@, a as int, v as int) {
                            lemma_reaches_below(self@, a as int, v as int);
                        }
                    },
                    Op::Relu(a) => {
                        if reaches(self@, a as int, v as int) {
                            lemma_reaches_below(self@, a as int, v as int);
                        }
                    },
                }
                assert(false);
            }
        }
        visited.set(v, true);
        topo.push(v);
        proof {
            assert(topo@.subrange(0, topo1.len() as int) =~= topo1);
            assert(topo@.subrange(0, topo0.len() as int) =~= topo0);
            assert(topo@ == topo1.push(v));
            assert forall|i: usize| i < visited@.len() implies (visited@[i as int] <==> topo@.contains(i)) by {
                if i != v {
                    if topo@.contains(i) {
                        let k = choose|k: int| 0 <= k < topo@.len() && topo@[k] == i;
                        assert(topo1[k] == i);
                    }
                    if topo1.contains(i) {
                        let k = choose|k: int| 0 <= k < topo1.len() && topo1[k] == i;
                        assert(topo@[k] == i);
                    }
                } else {
                    assert(topo@[topo1.len() as int] == v);
                }
            }
            assert forall|k: int, u: int|
                0 <= k < topo@.len() && has_operand(self@[topo@[k] as int], u) implies exists|j: int|
                0 <= j < k && topo@[j] == u by {
                if k < topo1.len() {
                    assert(topo@[k] == topo1[k]);
                    let j = choose|j: int| 0 <= j < k && topo1[j] == u;
                    assert(topo@[j] == u);
                } else {
                    assert(op_wf(self@[v as int], v as int));
                    assert(reaches(self@, u, u));
                    assert(topo1.contains(u as usize));
                    let j = choose|j: int| 0 <= j < topo1.len() && topo1[j] == u as usize;
                    assert(topo@[j] == u);
                }
            }
            assert forall|u: usize| #![trigger topo@.contains(u)]
                topo@.contains(u) <==> (topo0.contains(u) || reaches(self@, v as int, u as int)) by {
                if topo@.contains(u) && u != v {
                    let k = choose|k: int| 0 <= k < topo@.len() && topo@[k] == u;
                    assert(topo1[k] == u);
                }
                if u == v {
                    assert(topo@[topo1.len() as int] == v);
                }
                if topo0.contains(u) || reaches(self@, v as int, u as int) {
                    if u != v {
                        assert(topo1.contains(u));
                        let k = choose|k: int| 0 <= k < topo1.len() && topo1[k] == u;
                        assert(topo@[k] == u);
                    }
                }
            }
        }
    }

    /// The nodes that `root` reaches, each once, in depth-first post-order: every node
    /// comes after all of its operands, and `root` comes last.
    pub fn build_topo(&self, root: usize) -> (r: Vec<usize>)
        requires
            self.wf(),
            root < self@.len(),
        ensures
            is_topo_order(self@, root as int, r@),
            r@.len() > 0,
            r@.last() == root,
    {
        let n = self.ops.len();
        let mut visited: Vec<bool> = Vec::new();
        let mut i: usize = 0;
        while i < n
            invariant
                i <= n,
                n == self@.len(),
                visited@.len() == i,
                forall|j: int| 0 <= j < i ==> !visited@[j],
            decreases n - i,
        {
            visited.push(false);
            i += 1;
        }
        let mut topo: Vec<usize> = Vec::new();
        proof {
            assert(!topo@.contains(root));
        }
        self.build_topo_from(root, &mut topo, &mut visited);
        proof {
            assert(reaches(self@, root as int, root as int));
            assert(topo@.contains(root));
            assert(topo@.len() > 0);
            assert forall|u: usize| topo@.contains(u) <==> reaches(self@, root as int, u as int) by {
                assert(!Seq::<usize>::empty().contains(u));
            }
        }
        topo
    }

    /// The gradient contributions of the nodes of `order`, processed from its last node to
    /// its first.
    pub fn backward_schedule(&self, order: &Vec<usize>) -> (r: Vec<Contribution>)
        requires
            forall|k: int| 0 <= k < order@.len() ==> order@[k] < self@.len(),
        ensures
            r@ == schedule_of(self@, order@),
    {
        let n = order.len();
        let mut r: Vec<Contribution> = Vec::new();
        let mut k: usize = n;
        proof {
            assert(order@.subrange(n as int, n as int) =~= Seq::<usize>::empty());
        }
        while k > 0
            invariant
                k <= n,
                n == order@.len(),
                forall|j: int| 0 <= j < order@.len() ==> order@[j] < self@.len(),
                r@ == schedule_of(self@, order@.subrange(k as int, n as int)),
            decreases k,
        {
            k -= 1;
            let v = order[k];
            let ghost before = r@;
            match self.ops[v] {
                Op::Leaf => {},
                Op::Add(a, b) => {
                    r.push(Contribution { from: v, to: a, rule: Rule::Pass });
                    r.push(Contribution { from: v, to: b, rule: Rule::Pass });
                },
                Op::Mul(a, b) => {
                    r.push(Contribution { from: v, to: a, rule: Rule::Scale(b) });
                    r.push(Contribution { from: v, to: b, rule: Rule::Scale(a) });
                },
                Op::Pow(a) => {
                    r.push(Contribution { from: v, to: a, rule: Rule::Power });
                },
                Op::Relu(a) => {
                    r.push(Contribution { from: v, to: a, rule: Rule::Gate });
                },
            }
            proof {
                let sub = order@.subrange(k as int, n as int);
                assert(sub.drop_first() =~= order@.subrange(k + 1, n as int));
                assert(sub[0] == v);
                assert(r@ =~= before + contributions_of(self@, v));
            }
        }
        proof {
            assert(order@.subrange(0, n as int) =~= order@);
        }
        r
    }

    /// Runs the backward pass over the structure: the gradient contributions, in the
    /// order in which they are to be applied after `root`'s gradient is seeded with one.
    pub fn backward(&self, root: usize) -> (r: Vec<Contribution>)
        requires
            self.wf(),
            root < self@.len(),
        ensures
            is_backward_schedule(self@, root as int, r@),
    {
        let order = self.build_topo(root);
        let r = self.backward_schedule(&order);
        proof {
            assert(is_topo_order(self@, root as int, order@) && r@ == schedule_of(self@, order@));
        }
        r
    }
}

/// In `s`, a node that is an operand of another occurs before it.
pub open spec fn operand_precedes(ops: Seq<Op>, s: Seq<usize>) -> bool {
    forall|i: int, j: int|
        0 <= i < s.len() && 0 <= j < s.len() && #[trigger] has_operand(ops[s[j] as int], s[i] as int)
            ==> i < j
}

proof fn lemma_topo_operand_precedes(ops: Seq<Op>, root: int, s: Seq<usize>)
    requires
        is_topo_order(ops, root, s),
    ensures
        operand_precedes(ops, s),
{
    assert forall|i: int, j: int|
        0 <= i < s.len() && 0 <= j < s.len() && #[trigger] has_operand(ops[s[j] as int], s[i] as int)
            implies i < j by {
        let k = choose|k: int| 0 <= k < j && s[k] == s[i] as int;
        assert(s[k] == s[i]);
    }
}

proof fn lemma_schedule_entries(ops: Seq<Op>, s: Seq<usize>)
    ensures
        forall|m: int|
            0 <= m < schedule_of(ops, s).len() ==> s.contains(#[trigger] schedule_of(ops, s)[m].from)
                && has_operand(ops[schedule_of(ops, s)[m].from as int], schedule_of(ops, s)[m].to as int),
    decreases s.len(),
{
    if s.len() > 0 {
        let t = s.drop_first();
        lemma_schedule_entries(ops, t);
        let st = schedule_of(ops, t);
        let c = contributions_of(ops, s[0]);
        assert forall|m: int| 0 <= m < schedule_of(ops, s).len() implies s.contains(
            #[trigger] schedule_of(ops, s)[m].from,
        ) && has_operand(ops[schedule_of(ops, s)[m].from as int], schedule_of(ops, s)[m].to as int) by {
            if m < st.len() {
                assert(schedule_of(ops, s)[m] == st[m]);
                let k = choose|k: int| 0 <= k < t.len() && t[k] == st[m].from;
                assert(s[k + 1] == st[m].from);
            } else {
                assert(schedule_of(ops, s)[m] == c[m - st.len()]);
                assert(s[0] == c[m - st.len()].from);
            }
        }
    }
}

proof fn lemma_schedule_final(ops: Seq<Op>, s: Seq<usize>)
    requires
        arena_wf(ops),
        forall|k: int| 0 <= k < s.len() ==> s[k] < ops.len(),
        operand_precedes(ops, s),
    ensures
        forall|i: int, j: int|
            0 <= i < j < schedule_of(ops, s).len() ==> #[trigger] schedule_of(ops, s)[j].to
                != #[trigger] schedule_of(ops, s)[i].from,
    decreases s.len(),
{
    if s.len() > 0 {
        let t = s.drop_first();
        assert forall|i: int, j: int|
            0 <= i < t.len() && 0 <= j < t.len() && #[trigger] has_operand(ops[t[j] as int], t[i] as int)
                implies i < j by {
            assert(has_operand(ops[s[j + 1] as int], s[i + 1] as int));
        }
        lemma_schedule_final(ops, t);
        lemma_schedule_entries(ops, t);
        let st = schedule_of(ops, t);
        let c = contributions_of(ops, s[0]);
        let full = schedule_of(ops, s);
        assert(op_wf(ops[s[0] as int], s[0] as int));
        assert forall|i: int, j: int| 0 <= i < j < full.len() implies #[trigger] full[j].to
            != #[trigger] full[i].from by {
            if j < st.len() {
                assert(full[j] == st[j]);
                assert(full[i] == st[i]);
            } else if i >= st.len() {
                assert(full[j] == c[j - st.len()]);
                assert(full[i] == c[i - st.len()]);
            } else {
                assert(full[j] == c[j - st.len()]);
                assert(full[i] == st[i]);
                assert(t.contains(st[i].from));
                let k = choose|k: int| 0 <= k < t.len() && t[k] == st[i].from;
                assert(s[k + 1] == st[i].from);
                if full[j].to == full[i].from {
                    assert(has_operand(ops[s[0] as int], s[k + 1] as int));
                }
            }
        }
    }
}

proof fn lemma_schedule_block(ops: Seq<Op>, s: Seq<usize>, v: usize)
    requires
        s.contains(v),
    ensures
        exists|m: int|
            0 <= m && m + contributions_of(ops, v).len() <= schedule_of(ops, s).len()
                && #[trigger] schedule_of(ops, s).subrange(m, m + contributions_of(ops, v).len())
                == contributions_of(ops, v),
    decreases s.len(),
{
    let t = s.drop_first();
    let st = schedule_of(ops, t);
    let c = contributions_of(ops, v);
    if s[0] == v {
        let m = st.len() as int;
        assert(schedule_of(ops, s).subrange(m, m + c.len()) =~= c);
    } else {
        let k = choose|k: int| 0 <= k < s.len() && s[k] == v;
        assert(t[k - 1] == v);
        lemma_schedule_block(ops, t, v);
        let m = choose|m: int|
            0 <= m && m + c.len() <= st.len() && #[trigger] st.subrange(m, m + c.len()) == c;
        assert(schedule_of(ops, s).subrange(m, m + c.len()) =~= st.subrange(m, m + c.len()));
    }
}

/// Reverse-mode accumulation is complete when read: in a backward schedule every
/// contribution into a node comes before every contribution out of it, and nothing is
/// ever contributed to the output itself, so its seeded gradient stays as it was.
pub proof fn lemma_gradient_final_when_propagated(g: Graph, root: usize, s: Seq<Contribution>)
    requires
        g.wf(),
        root < g@.len(),
        is_backward_schedule(g@, root as int, s),
    ensures
        forall|i: int, j: int| 0 <= i < j < s.len() ==> #[trigger] s[j].to != #[trigger] s[i].from,
        forall|m: int| 0 <= m < s.len() ==> #[trigger] s[m].to != root,
{
    let order = choose|order: Seq<usize>|
        #![trigger schedule_of(g@, order)]
        is_topo_order(g@, root as int, order) && s == schedule_of(g@, order);
    lemma_topo_operand_precedes(g@, root as int, order);
    lemma_schedule_final(g@, order);
    lemma_schedule_entries(g@, order);
    assert forall|m: int| 0 <= m < s.len() implies #[trigger] s[m].to != root by {
        let v = s[m].from;
        assert(order.contains(v));
        assert(reaches(g@, root as int, v as int));
        lemma_reaches_below(g@, root as int, v as int);
        assert(op_wf(g@[v as int], v as int));
    }
}

/// Every use of a node is accounted for: each node that the output reaches hands one
/// contribution per operand slot, so a node used twice (as in `z * z`) receives two.
/// Every contribution comes from such a node and goes to one of its operands, so a node
/// that the output does not reach (a leaf created apart from it) receives nothing.
pub proof fn lemma_every_use_contributes(g: Graph, root: usize, s: Seq<Contribution>, v: usize)
    requires
        g.wf(),
        root < g@.len(),
        is_backward_schedule(g@, root as int, s),
        reaches(g@, root as int, v as int),
    ensures
        exists|m: int|
            0 <= m && m + contributions_of(g@, v).len() <= s.len() && #[trigger] s.subrange(
                m,
                m + contributions_of(g@, v).len(),
            ) == contributions_of(g@, v),
        forall|m: int|
            0 <= m < s.len() ==> reaches(g@, root as int, #[trigger] s[m].from as int)
                && has_operand(g@[s[m].from as int], s[m].to as int) && reaches(
                g@,
                root as int,
                s[m].to as int,
            ),
{
    let order = choose|order: Seq<usize>|
        #![trigger schedule_of(g@, order)]
        is_topo_order(g@, root as int, order) && s == schedule_of(g@, order);
    assert(order.contains(v));
    lemma_schedule_block(g@, order, v);
    lemma_schedule_entries(g@, order);
    assert forall|m: int| 0 <= m < s.len() implies reaches(g@, root as int, #[trigger] s[m].from as int)
        && has_operand(g@[s[m].from as int], s[m].to as int) && reaches(g@, root as int, s[m].to as int) by {
        let w = s[m].from;
        assert(order.contains(w));
        lemma_reaches_operand(g@, root as int, w as int, s[m].to as int);
    }
}

} // verus!
