//! The adaptive Markov predictor: a base grid of 256 byte contexts, each a
//! complete binary decision tree over the bits of the next byte, plus a
//! bounded pool of cloned nodes.
//!
//! Weights are counted in fifths of an observation, so that the prior of
//! 0.2 per edge is a whole number and every update is exact.

use vstd::prelude::*;
use vstd::arithmetic::div_mod::{lemma_fundamental_div_mod, lemma_mod_pos_bound};
use array2d::Array2D;
use crate::coder::MAX_TOTAL;
use crate::grid::{grid_filled, grid_get, grid_rows, grid_set};

verus! {

/// Number of byte contexts.
pub const CONTEXTS: usize = 256;

/// Decision nodes per context: a complete tree of depth 8.
pub const TREE_NODES: usize = 255;

/// Position of the first node of the last decision level.
pub const LAST_LEVEL: usize = 127;

/// Initial weight of each edge (0.2 observations).
pub const PRIOR: u64 = 1;

/// Weight of one observation.
pub const STEP: u64 = 5;

/// Weight an edge needs before its target may be cloned (2 observations).
pub const THRESHOLD: u64 = 10;

/// Evidence the target must hold beyond the edge's own (2 observations).
pub const BIGTHRES: u64 = 10;

/// Ceiling at which a weight stops growing.
pub const MAX_WEIGHT: u64 = 0x4000_0000;

/// A reference to a node: a position in a context's tree, or a clone.
#[derive(Clone, Copy, PartialEq, Eq, Structural, Debug)]
pub enum Link {
    Grid { context: usize, position: usize },
    Pool { index: usize },
}

/// A predictor state: the weights of its two outgoing edges and their targets.
#[derive(Clone, Copy, Debug)]
pub struct Node {
    pub zero: u64,
    pub one: u64,
    pub next_zero: Link,
    pub next_one: Link,
}

impl Node {
    pub open spec fn weight(self, bit: bool) -> int {
        if bit { self.one as int } else { self.zero as int }
    }

    pub open spec fn next(self, bit: bool) -> Link {
        if bit { self.next_one } else { self.next_zero }
    }

    pub open spec fn total(self) -> int {
        self.zero + self.one
    }
}

/// The graph as values: the base grid row by row, and the clone pool.
pub type Model = (Seq<Seq<Node>>, Seq<Node>);

pub open spec fn node_at(m: Model, l: Link) -> Node {
    match l {
        Link::Grid { context, position } => m.0[context as int][position as int],
        Link::Pool { index } => m.1[index as int],
    }
}

pub open spec fn link_ok(pool_len: int, l: Link) -> bool {
    match l {
        Link::Grid { context, position } => context < CONTEXTS && position < TREE_NODES,
        Link::Pool { index } => index < pool_len,
    }
}

pub open spec fn node_ok(pool_len: int, n: Node) -> bool {
    &&& link_ok(pool_len, n.next_zero)
    &&& link_ok(pool_len, n.next_one)
    &&& 0 < n.total()
    &&& n.zero <= MAX_WEIGHT
    &&& n.one <= MAX_WEIGHT
}

/// Every node has a positive total weight, bounded weights, and edges into
/// the grid or the pool.
pub open spec fn model_wf(m: Model) -> bool {
    &&& m.0.len() == CONTEXTS
    &&& forall|c: int| 0 <= c < CONTEXTS ==> (#[trigger] m.0[c]).len() == TREE_NODES
    &&& forall|c: int, p: int|
        0 <= c < CONTEXTS && 0 <= p < TREE_NODES ==> node_ok(m.1.len() as int, #[trigger] m.0[c][p])
    &&& forall|i: int| 0 <= i < m.1.len() ==> node_ok(m.1.len() as int, #[trigger] m.1[i])
}

pub open spec fn with_node(m: Model, l: Link, n: Node) -> Model {
    match l {
        Link::Grid { context, position } => (
            m.0.update(context as int, m.0[context as int].update(position as int, n)),
            m.1,
        ),
        Link::Pool { index } => (m.0, m.1.update(index as int, n)),
    }
}

/// The root of a context's tree.
pub open spec fn root_of(context: int) -> Link {
    Link::Grid { context: context as usize, position: 0 }
}

/// A node of the initial topology. Inside a tree, position `p` leads to
/// `2p + 1` on a 0-bit and `2p + 2` on a 1-bit; the last level, at position
/// `127 + v` after the first seven bits `v`, leads to the root of the context
/// of the completed byte `2v + bit`.
pub open spec fn initial_node(context: int, position: int) -> Node {
    if position < LAST_LEVEL {
        Node {
            zero: PRIOR,
            one: PRIOR,
            next_zero: Link::Grid { context: context as usize, position: (2 * position + 1) as usize },
            next_one: Link::Grid { context: context as usize, position: (2 * position + 2) as usize },
        }
    } else {
        let v = position - LAST_LEVEL;
        Node { zero: PRIOR, one: PRIOR, next_zero: root_of(2 * v), next_one: root_of(2 * v + 1) }
    }
}

/// The graph right after a flush: the initial topology and an empty pool.
pub open spec fn fresh_model() -> Model {
    (
        Seq::new(CONTEXTS as nat, |c: int| Seq::new(TREE_NODES as nat, |p: int| initial_node(c, p))),
        Seq::empty(),
    )
}

/// Whether an edge of weight `used` into a target of total weight `total`
/// has the target cloned.
pub open spec fn clones(used: int, total: int) -> bool {
    used >= THRESHOLD && total >= BIGTHRES + used
}

/// The clone's share of a target: a fraction `used / total` of each weight,
/// with the target's edges.
pub open spec fn split_off(t: Node, used: int) -> Node {
    Node {
        zero: (t.zero * used / t.total()) as u64,
        one: (t.one * used / t.total()) as u64,
        next_zero: t.next_zero,
        next_one: t.next_one,
    }
}

/// What the target keeps once the clone's share is taken out.
pub open spec fn remainder(t: Node, used: int) -> Node {
    Node {
        zero: (t.zero - split_off(t, used).zero) as u64,
        one: (t.one - split_off(t, used).one) as u64,
        ..t
    }
}

pub open spec fn bumped(w: u64) -> u64 {
    if w + STEP <= MAX_WEIGHT { (w + STEP) as u64 } else { MAX_WEIGHT }
}

/// The node with one more observation of `bit`.
pub open spec fn observed(n: Node, bit: bool) -> Node {
    if bit {
        Node { one: bumped(n.one), ..n }
    } else {
        Node { zero: bumped(n.zero), ..n }
    }
}

pub open spec fn redirected(n: Node, bit: bool, l: Link) -> Node {
    if bit {
        Node { next_one: l, ..n }
    } else {
        Node { next_zero: l, ..n }
    }
}

/// One observation of `bit` at `cur`, before any flush: the target may be
/// cloned (its weights and edges read before anything changes), then the
/// edge's weight grows and the edge is followed.
pub open spec fn step(m: Model, cur: Link, bit: bool) -> (Model, Link) {
    let n = node_at(m, cur);
    let tl = n.next(bit);
    let t = node_at(m, tl);
    let used = n.weight(bit);
    if clones(used, t.total()) {
        let fresh = Link::Pool { index: m.1.len() as usize };
        let m1 = with_node(m, tl, remainder(t, used));
        let m2 = (m1.0, m1.1.push(split_off(t, used)));
        let n2 = observed(redirected(node_at(m2, cur), bit, fresh), bit);
        (with_node(m2, cur, n2), fresh)
    } else {
        (with_node(m, cur, observed(n, bit)), tl)
    }
}

/// A full update: the step, followed by a flush when the pool has reached
/// the budget.
pub open spec fn updated(m: Model, cur: Link, bit: bool, budget: int) -> (Model, Link) {
    let (m1, next) = step(m, cur, bit);
    if m1.1.len() >= budget {
        (fresh_model(), root_of(0))
    } else {
        (m1, next)
    }
}

proof fn lemma_shares(a: int, b: int, u: int)
    requires
        0 <= a,
        0 <= b,
        0 < a + b,
        0 <= u <= a + b,
    ensures
        0 <= a * u / (a + b) <= a,
        0 <= b * u / (a + b) <= b,
        u - 1 <= a * u / (a + b) + b * u / (a + b) <= u,
{
    let t = a + b;
    let q1 = a * u / t;
    let q2 = b * u / t;
    assert(0 <= a * u) by (nonlinear_arith) requires 0 <= a, 0 <= u;
    assert(0 <= b * u) by (nonlinear_arith) requires 0 <= b, 0 <= u;
    lemma_fundamental_div_mod(a * u, t);
    lemma_fundamental_div_mod(b * u, t);
    lemma_mod_pos_bound(a * u, t);
    lemma_mod_pos_bound(b * u, t);
    let r1 = (a * u) % t;
    let r2 = (b * u) % t;
    assert(a * u + b * u == u * t) by (nonlinear_arith) requires t == a + b;
    assert((u - q1 - q2) * t == r1 + r2) by (nonlinear_arith)
        requires
            a * u == t * q1 + r1,
            b * u == t * q2 + r2,
            a * u + b * u == u * t,
    ;
    assert(0 <= u - q1 - q2 < 2) by (nonlinear_arith)
        requires (u - q1 - q2) * t == r1 + r2, 0 <= r1 < t, 0 <= r2 < t, 0 < t;
    assert(0 <= q1) by (nonlinear_arith) requires a * u == t * q1 + r1, 0 <= a * u, r1 < t, 0 < t;
    assert(0 <= q2) by (nonlinear_arith) requires b * u == t * q2 + r2, 0 <= b * u, r2 < t, 0 < t;
    assert(q1 <= a) by (nonlinear_arith)
        requires a * u == t * q1 + r1, 0 <= r1, u <= t, 0 <= a, 0 < t;
    assert(q2 <= b) by (nonlinear_arith)
        requires b * u == t * q2 + r2, 0 <= r2, u <= t, 0 <= b, 0 < t;
}

proof fn lemma_with_node_wf(m: Model, l: Link, n: Node)
    requires
        model_wf(m),
        link_ok(m.1.len() as int, l),
        node_ok(m.1.len() as int, n),
    ensures
        model_wf(with_node(m, l, n)),
        with_node(m, l, n).1.len() == m.1.len(),
        node_at(with_node(m, l, n), l) == n,
{
    let m2 = with_node(m, l, n);
    match l {
        Link::Grid { context, position } => {
            assert forall|c: int| 0 <= c < CONTEXTS implies (#[trigger] m2.0[c]).len() == TREE_NODES by {
                assert(m.0[c].len() == TREE_NODES);
            }
            assert forall|c: int, p: int|
                0 <= c < CONTEXTS && 0 <= p < TREE_NODES implies node_ok(m2.1.len() as int, #[trigger] m2.0[c][p]) by {
                if c == context as int {
                    assert(m.0[c].len() == TREE_NODES);
                }
            }
        },
        Link::Pool { index } => {},
    }
}

proof fn lemma_push_wf(m: Model, n: Node)
    requires
        model_wf(m),
        node_ok(m.1.len() + 1int, n),
    ensures
        model_wf((m.0, m.1.push(n))),
{
    let m2 = (m.0, m.1.push(n));
    assert forall|c: int, p: int|
        0 <= c < CONTEXTS && 0 <= p < TREE_NODES implies node_ok(m2.1.len() as int, #[trigger] m2.0[c][p]) by {
        assert(node_ok(m.1.len() as int, m.0[c][p]));
    }
    assert forall|i: int| 0 <= i < m2.1.len() implies node_ok(m2.1.len() as int, #[trigger] m2.1[i]) by {
        if i < m.1.len() {
            assert(node_ok(m.1.len() as int, m.1[i]));
        }
    }
}

pub proof fn lemma_fresh_wf()
    ensures
        model_wf(fresh_model()),
{
    let m = fresh_model();
    assert forall|c: int, p: int|
        0 <= c < CONTEXTS && 0 <= p < TREE_NODES implies node_ok(m.1.len() as int, #[trigger] m.0[c][p]) by {
        assert(m.0[c][p] == initial_node(c, p));
    }
}

proof fn lemma_step_wf(m: Model, cur: Link, bit: bool)
    requires
        model_wf(m),
        link_ok(m.1.len() as int, cur),
    ensures
        model_wf(step(m, cur, bit).0),
        link_ok(step(m, cur, bit).0.1.len() as int, step(m, cur, bit).1),
        step(m, cur, bit).0.1.len() <= m.1.len() + 1,
{
    let n = node_at(m, cur);
    let len = m.1.len() as int;
    assert(node_ok(len, n));
    let tl = n.next(bit);
    let t = node_at(m, tl);
    assert(node_ok(len, t));
    let used = n.weight(bit);
    if clones(used, t.total()) {
        lemma_shares(t.zero as int, t.one as int, used);
        let fresh = Link::Pool { index: m.1.len() as usize };
        let rest = remainder(t, used);
        assert(node_ok(len, rest));
        lemma_with_node_wf(m, tl, rest);
        let m1 = with_node(m, tl, rest);
        let s = split_off(t, used);
        assert(node_ok(len + 1, s));
        lemma_push_wf(m1, s);
        let m2 = (m1.0, m1.1.push(s));
        let n1 = node_at(m2, cur);
        assert(node_ok(len + 1, n1)) by {
            match cur {
                Link::Grid { context, position } => {
                    assert(m2.0[context as int].len() == TREE_NODES);
                },
                Link::Pool { index } => {},
            }
        }
        let n2 = observed(redirected(n1, bit, fresh), bit);
        assert(node_ok(len + 1, n2));
        lemma_with_node_wf(m2, cur, n2);
    } else {
        lemma_with_node_wf(m, cur, observed(n, bit));
    }
}

/// Right after a flush every context's root predicts a 0-bit with
/// probability one half, and the clone pool is empty.
pub proof fn lemma_flushed_even(context: int)
    requires
        0 <= context < CONTEXTS,
    ensures
        2 * node_at(fresh_model(), root_of(context)).zero == node_at(fresh_model(), root_of(context)).total(),
        fresh_model().1.len() == 0,
{
}

/// An update never leaves the clone pool at or above the budget: a pool
/// below the budget before stays below it after, for any budget of at
/// least one.
pub proof fn lemma_update_within_budget(m: Model, cur: Link, bit: bool, budget: int)
    requires
        model_wf(m),
        link_ok(m.1.len() as int, cur),
        1 <= budget,
        m.1.len() < budget,
    ensures
        updated(m, cur, bit, budget).0.1.len() < budget,
        model_wf(updated(m, cur, bit, budget).0),
{
    lemma_step_wf(m, cur, bit);
    lemma_fresh_wf();
}

/// The node a valid link refers to is well formed.
pub proof fn lemma_node_ok(m: Model, l: Link)
    requires
        model_wf(m),
        link_ok(m.1.len() as int, l),
    ensures
        node_ok(m.1.len() as int, node_at(m, l)),
{
    match l {
        Link::Grid { context, position } => {
            assert(node_ok(m.1.len() as int, m.0[context as int][position as int]));
        },
        Link::Pool { index } => {
            assert(node_ok(m.1.len() as int, m.1[index as int]));
        },
    }
}

/// A full update keeps the graph well formed and returns a valid link.
pub proof fn lemma_updated_wf(m: Model, cur: Link, bit: bool, budget: int)
    requires
        model_wf(m),
        link_ok(m.1.len() as int, cur),
    ensures
        model_wf(updated(m, cur, bit, budget).0),
        link_ok(updated(m, cur, bit, budget).0.1.len() as int, updated(m, cur, bit, budget).1),
{
    lemma_step_wf(m, cur, bit);
    lemma_fresh_wf();
}

/// The predictor: the base grid, the clone pool (its length is the cursor)
/// and the node budget.
pub struct StateGraph {
    pub grid: Array2D<Node>,
    pub pool: Vec<Node>,
    pub budget: usize,
}

impl StateGraph {
    pub open spec fn model(&self) -> Model {
        (grid_rows(self.grid), self.pool@)
    }

    /// Well-formed nodes, and a cursor below the budget.
    pub open spec fn wf(&self) -> bool {
        &&& model_wf(self.model())
        &&& self.pool.len() < self.budget
    }

    /// A flushed graph with the given node budget.
    pub fn new(budget: usize) -> (g: StateGraph)
        requires
            budget >= 1,
        ensures
            g.wf(),
            g.budget == budget,
            g.model() == fresh_model(),
    {
        let blank = Node {
            zero: PRIOR,
            one: PRIOR,
            next_zero: Link::Grid { context: 0, position: 0 },
            next_one: Link::Grid { context: 0, position: 0 },
        };
        let mut g = StateGraph { grid: grid_filled(blank, CONTEXTS, TREE_NODES), pool: Vec::new(), budget };
        g.flush();
        g
    }

    /// The clone-pool cursor.
    pub fn cursor(&self) -> (r: usize)
        ensures
            r == self.pool.len(),
    {
        self.pool.len()
    }

    /// Resets every context's tree to the initial topology and weights,
    /// empties the pool, and returns the root of context 0.
    pub fn flush(&mut self) -> (r: Link)
        requires
            grid_rows(old(self).grid).len() == CONTEXTS,
            forall|c: int| 0 <= c < CONTEXTS ==> (#[trigger] grid_rows(old(self).grid)[c]).len() == TREE_NODES,
            old(self).budget >= 1,
        ensures
            final(self).wf(),
            final(self).budget == old(self).budget,
            final(self).model() == fresh_model(),
            final(self).pool.len() == 0,
            r == root_of(0),
    {
        let mut c: usize = 0;
        while c < CONTEXTS
            invariant
                c <= CONTEXTS,
                self.budget == old(self).budget,
                grid_rows(self.grid).len() == CONTEXTS,
                forall|k: int| 0 <= k < CONTEXTS ==> (#[trigger] grid_rows(self.grid)[k]).len() == TREE_NODES,
                forall|k: int, p: int|
                    0 <= k < c && 0 <= p < TREE_NODES ==> #[trigger] grid_rows(self.grid)[k][p] == initial_node(k, p),
            decreases CONTEXTS - c,
        {
            let mut p: usize = 0;
            while p < TREE_NODES
                invariant
                    c < CONTEXTS,
                    p <= TREE_NODES,
                    self.budget == old(self).budget,
                    grid_rows(self.grid).len() == CONTEXTS,
                    forall|k: int| 0 <= k < CONTEXTS ==> (#[trigger] grid_rows(self.grid)[k]).len() == TREE_NODES,
                    forall|k: int, q: int|
                        0 <= k < c && 0 <= q < TREE_NODES ==> #[trigger] grid_rows(self.grid)[k][q] == initial_node(k, q),
                    forall|q: int| 0 <= q < p ==> #[trigger] grid_rows(self.grid)[c as int][q] == initial_node(c as int, q),
                decreases TREE_NODES - p,
            {
                let n = if p < LAST_LEVEL {
                    Node {
                        zero: PRIOR,
                        one: PRIOR,
                        next_zero: Link::Grid { context: c, position: 2 * p + 1 },
                        next_one: Link::Grid { context: c, position: 2 * p + 2 },
                    }
                } else {
                    let v = p - LAST_LEVEL;
                    Node {
                        zero: PRIOR,
                        one: PRIOR,
                        next_zero: Link::Grid { context: 2 * v, position: 0 },
                        next_one: Link::Grid { context: 2 * v + 1, position: 0 },
                    }
                };
                grid_set(&mut self.grid, c, p, n);
                p = p + 1;
            }
            c = c + 1;
        }
        self.pool = Vec::new();
        proof {
            let m = self.model();
            let f = fresh_model();
            assert forall|k: int| 0 <= k < CONTEXTS implies #[trigger] m.0[k] =~= f.0[k] by {
                assert forall|q: int| 0 <= q < TREE_NODES implies m.0[k][q] == f.0[k][q] by {
                    assert(m.0[k][q] == initial_node(k, q));
                }
            }
            assert(m.0 =~= f.0);
            assert(m.1 =~= f.1);
            lemma_fresh_wf();
        }
        Link::Grid { context: 0, position: 0 }
    }

    /// The node a link refers to.
    pub fn node(&self, l: Link) -> (n: Node)
        requires
            model_wf(self.model()),
            link_ok(self.pool.len() as int, l),
        ensures
            n == node_at(self.model(), l),
    {
        match l {
            Link::Grid { context, position } => grid_get(&self.grid, context, position),
            Link::Pool { index } => self.pool[index],
        }
    }

    fn put(&mut self, l: Link, n: Node)
        requires
            model_wf(old(self).model()),
            link_ok(old(self).pool.len() as int, l),
        ensures
            final(self).model() == with_node(old(self).model(), l, n),
            final(self).budget == old(self).budget,
    {
        match l {
            Link::Grid { context, position } => grid_set(&mut self.grid, context, position, n),
            Link::Pool { index } => self.pool.set(index, n),
        }
    }

    /// The probability that the next bit is 0 at `l`, as `zero / total`.
    pub fn predict(&self, l: Link) -> (r: (u64, u64))
        requires
            self.wf(),
            link_ok(self.pool.len() as int, l),
        ensures
            r.0 == node_at(self.model(), l).zero,
            r.1 == node_at(self.model(), l).total(),
            0 < r.1 <= MAX_TOTAL,
            r.0 <= r.1,
    {
        let n = self.node(l);
        proof {
            assert(node_ok(self.pool.len() as int, n));
        }
        (n.zero, n.zero + n.one)
    }

    /// Records an observation of `bit` at `cur` and returns the next
    /// current node, flushing when the pool reaches the budget.
    pub fn update(&mut self, cur: Link, bit: bool) -> (next: Link)
        requires
            old(self).wf(),
            link_ok(old(self).pool.len() as int, cur),
        ensures
            final(self).wf(),
            final(self).budget == old(self).budget,
            link_ok(final(self).pool.len() as int, next),
            (final(self).model(), next) == updated(old(self).model(), cur, bit, old(self).budget as int),
    {
        proof {
            lemma_step_wf(self.model(), cur, bit);
        }
        let ghost m = self.model();
        let n = self.node(cur);
        assert(node_ok(self.pool.len() as int, n));
        let tl = if bit { n.next_one } else { n.next_zero };
        let t = self.node(tl);
        assert(node_ok(self.pool.len() as int, t));
        let used: u64 = if bit { n.one } else { n.zero };
        let total: u64 = t.zero + t.one;
        let next;
        if used >= THRESHOLD && total >= BIGTHRES + used {
            proof {
                lemma_shares(t.zero as int, t.one as int, used as int);
                assert(t.zero * used <= 0x4000_0000 * 0x4000_0000) by (nonlinear_arith)
                    requires t.zero <= 0x4000_0000, used <= 0x4000_0000;
                assert(t.one * used <= 0x4000_0000 * 0x4000_0000) by (nonlinear_arith)
                    requires t.one <= 0x4000_0000, used <= 0x4000_0000;
            }
            let fresh = Link::Pool { index: self.pool.len() };
            let share = Node {
                zero: t.zero * used / total,
                one: t.one * used / total,
                next_zero: t.next_zero,
                next_one: t.next_one,
            };
            let rest = Node { zero: t.zero - share.zero, one: t.one - share.one, ..t };
            proof {
                assert(share == split_off(t, used as int));
                assert(rest == remainder(t, used as int));
                lemma_shares(t.zero as int, t.one as int, used as int);
                assert(node_ok(self.pool.len() as int, rest));
                lemma_with_node_wf(self.model(), tl, rest);
            }
            self.put(tl, rest);
            self.pool.push(share);
            let n1 = self.node(cur);
            let n2 = if bit {
                Node { next_one: fresh, one: if n1.one + STEP <= MAX_WEIGHT { n1.one + STEP } else { MAX_WEIGHT }, ..n1 }
            } else {
                Node { next_zero: fresh, zero: if n1.zero + STEP <= MAX_WEIGHT { n1.zero + STEP } else { MAX_WEIGHT }, ..n1 }
            };
            self.put(cur, n2);
            next = fresh;
        } else {
            let n2 = if bit {
                Node { one: if n.one + STEP <= MAX_WEIGHT { n.one + STEP } else { MAX_WEIGHT }, ..n }
            } else {
                Node { zero: if n.zero + STEP <= MAX_WEIGHT { n.zero + STEP } else { MAX_WEIGHT }, ..n }
            };
            self.put(cur, n2);
            next = tl;
        }
        assert((self.model(), next) == step(m, cur, bit));
        if self.pool.len() >= self.budget {
            self.flush()
        } else {
            next
        }
    }
}

} // verus!
