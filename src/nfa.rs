use vstd::prelude::*;

use std::collections::HashSet;

use crate::utf_parser::CodePoint;

verus! {

broadcast use vstd::std_specs::hash::group_hash_axioms;

/// What an edge reads: nothing, or one code unit given by its bytes.
pub enum Label {
    Epsilon,
    Regular(Seq<u8>),
}

/// An edge as a mathematical value.
pub struct EdgeModel {
    pub to: int,
    pub label: Label,
}

/// What an edge reads.
pub enum EdgeType {
    /// Reads the given code unit.
    Regular(CodePoint),
    /// Reads nothing.
    Epsilon,
}

/// An outgoing edge of a state.
pub struct Edge {
    pub to: usize,
    pub kind: EdgeType,
}

impl View for Edge {
    type V = EdgeModel;

    open spec fn view(&self) -> EdgeModel {
        EdgeModel {
            to: self.to as int,
            label: match self.kind {
                EdgeType::Regular(c) => Label::Regular(c@),
                EdgeType::Epsilon => Label::Epsilon,
            },
        }
    }
}

impl Edge {
    /// A copy of this edge.
    pub fn duplicate(&self) -> (r: Edge)
        ensures
            r@ == self@,
    {
        let kind = match &self.kind {
            EdgeType::Regular(c) => EdgeType::Regular(c.duplicate()),
            EdgeType::Epsilon => EdgeType::Epsilon,
        };
        Edge { to: self.to, kind }
    }

    /// Whether this edge reads nothing.
    pub fn is_epsilon(&self) -> (r: bool)
        ensures
            r == (self@.label is Epsilon),
    {
        match &self.kind {
            EdgeType::Regular(_) => false,
            EdgeType::Epsilon => true,
        }
    }
}

/// The mathematical value of a list of edges.
pub open spec fn row_model(row: Seq<Edge>) -> Seq<EdgeModel> {
    row.map_values(|e: Edge| e@)
}

/// The mathematical value of an adjacency list.
pub open spec fn adj_model(adj: Seq<Vec<Edge>>) -> Seq<Seq<EdgeModel>> {
    adj.map_values(|r: Vec<Edge>| row_model(r@))
}

/// Whether every edge of `adj` leads to a state of `adj`.
pub open spec fn targets_in_range(adj: Seq<Seq<EdgeModel>>) -> bool {
    forall|i: int, k: int|
        0 <= i < adj.len() && 0 <= k < adj[i].len() ==> 0 <= #[trigger] adj[i][k].to < adj.len()
}

/// An automaton: a list of states, each with its outgoing edges, a start state
/// and a set of accepting states.
pub struct NFA {
    pub adjecents: Vec<Vec<Edge>>,
    pub start: usize,
    pub accepting: HashSet<usize>,
}

impl NFA {
    /// The edges of each state.
    pub open spec fn adj(&self) -> Seq<Seq<EdgeModel>> {
        adj_model(self.adjecents@)
    }

    /// The accepting states, as integers.
    pub open spec fn accepting_states(&self) -> Set<int> {
        Set::new(|i: int| 0 <= i <= usize::MAX && self.accepting@.contains(i as usize))
    }

    /// Every edge, the start and every accepting state name a state.
    pub open spec fn wf(&self) -> bool {
        &&& self.start < self.adjecents@.len()
        &&& self.adjecents@.len() <= usize::MAX
        &&& targets_in_range(self.adj())
        &&& forall|i: usize| #[trigger] self.accepting@.contains(i) ==> i < self.adjecents@.len()
    }
}

/// Whether state `i` has an epsilon edge to `j`.
pub open spec fn eps_edge(adj: Seq<Seq<EdgeModel>>, i: int, j: int) -> bool {
    0 <= i < adj.len() && exists|k: int|
        0 <= k < adj[i].len() && #[trigger] adj[i][k].to == j && adj[i][k].label is Epsilon
}

/// Whether `path` walks along epsilon edges from its first state to its last.
pub open spec fn is_eps_path(adj: Seq<Seq<EdgeModel>>, path: Seq<int>) -> bool {
    &&& path.len() >= 1
    &&& forall|t: int| 0 <= t < path.len() - 1 ==> #[trigger] eps_edge(adj, path[t], path[t + 1])
}

/// Whether `m` can be reached from `n` by epsilon edges alone (in zero or more
/// steps).
pub open spec fn eps_reach(adj: Seq<Seq<EdgeModel>>, n: int, m: int) -> bool {
    exists|path: Seq<int>| #[trigger] is_eps_path(adj, path) && path[0] == n && path.last() == m
}

/// The epsilon-closure of `n`: the states that `n` reaches by epsilon edges.
pub open spec fn closure_of(adj: Seq<Seq<EdgeModel>>, n: int) -> Set<usize> {
    Set::new(|m: usize| eps_reach(adj, n, m as int))
}

/// Whether every epsilon edge that leaves a state of `c` outside `outside`
/// ends in `c`.
pub open spec fn closed_except(adj: Seq<Seq<EdgeModel>>, c: Set<usize>, outside: Set<usize>) -> bool {
    forall|x: usize, k: int|
        c.contains(x) && !outside.contains(x) && 0 <= x < adj.len() && 0 <= k < adj[x as int].len()
            && (#[trigger] adj[x as int][k]).label is Epsilon ==> c.contains(
            adj[x as int][k].to as usize,
        )
}

/// How many of the states `0 .. n` are not in `c`.
pub open spec fn missing(c: Set<usize>, n: nat) -> nat
    decreases n,
{
    if n == 0 {
        0
    } else {
        missing(c, (n - 1) as nat) + if c.contains((n - 1) as usize) {
            0nat
        } else {
            1nat
        }
    }
}

proof fn lemma_missing_mono(c: Set<usize>, d: Set<usize>, n: nat)
    requires
        c.subset_of(d),
        n <= usize::MAX + 1,
    ensures
        missing(d, n) <= missing(c, n),
    decreases n,
{
    if n > 0 {
        lemma_missing_mono(c, d, (n - 1) as nat);
    }
}

proof fn lemma_missing_insert(c: Set<usize>, x: usize, n: nat)
    requires
        !c.contains(x),
        x < n <= usize::MAX + 1,
    ensures
        missing(c.insert(x), n) < missing(c, n),
    decreases n,
{
    if n - 1 > x {
        lemma_missing_insert(c, x, (n - 1) as nat);
    } else {
        lemma_missing_mono(c, c.insert(x), (n - 1) as nat);
    }
}

proof fn lemma_reach_refl(adj: Seq<Seq<EdgeModel>>, n: int)
    ensures
        eps_reach(adj, n, n),
{
    let path = seq![n];
    assert(is_eps_path(adj, path));
}

proof fn lemma_reach_step(adj: Seq<Seq<EdgeModel>>, a: int, b: int, c: int)
    requires
        eps_edge(adj, a, b),
        eps_reach(adj, b, c),
    ensures
        eps_reach(adj, a, c),
{
    let p = choose|p: Seq<int>| #[trigger] is_eps_path(adj, p) && p[0] == b && p.last() == c;
    let q = seq![a] + p;
    assert forall|t: int| 0 <= t < q.len() - 1 implies #[trigger] eps_edge(adj, q[t], q[t + 1]) by {
        if t > 0 {
            assert(q[t] == p[t - 1] && q[t + 1] == p[t]);
            assert(eps_edge(adj, p[t - 1], p[t - 1 + 1]));
        } else {
            assert(q[0] == a && q[1] == b);
        }
    }
    assert(is_eps_path(adj, q));
}

/// A set that holds `n` and is closed under epsilon edges holds all that `n`
/// reaches.
proof fn lemma_closed_holds_reach(adj: Seq<Seq<EdgeModel>>, c: Set<usize>, n: int, m: int)
    requires
        targets_in_range(adj),
        adj.len() <= usize::MAX,
        0 <= n < adj.len(),
        c.contains(n as usize),
        closed_except(adj, c, Set::empty()),
        eps_reach(adj, n, m),
    ensures
        c.contains(m as usize),
        0 <= m < adj.len(),
{
    let p = choose|p: Seq<int>| #[trigger] is_eps_path(adj, p) && p[0] == n && p.last() == m;
    lemma_closed_holds_path(adj, c, p, p.len() - 1);
}

proof fn lemma_closed_holds_path(adj: Seq<Seq<EdgeModel>>, c: Set<usize>, p: Seq<int>, t: int)
    requires
        targets_in_range(adj),
        adj.len() <= usize::MAX,
        is_eps_path(adj, p),
        0 <= p[0] < adj.len(),
        c.contains(p[0] as usize),
        closed_except(adj, c, Set::empty()),
        0 <= t < p.len(),
    ensures
        c.contains(p[t] as usize),
        0 <= p[t] < adj.len(),
    decreases t,
{
    if t > 0 {
        lemma_closed_holds_path(adj, c, p, t - 1);
        let a = p[t - 1];
        assert(eps_edge(adj, p[t - 1], p[t - 1 + 1]));
        let k = choose|k: int|
            0 <= k < adj[a].len() && #[trigger] adj[a][k].to == p[t] && adj[a][k].label is Epsilon;
        assert(adj[a as usize as int][k] == adj[a][k]);
    }
}

impl NFA {
    /// The epsilon-closure of `node`: the states reachable from it by epsilon
    /// edges alone, itself included. Safe on epsilon cycles.
    pub fn epsilon_closure(&self, node: usize) -> (r: HashSet<usize>)
        requires
            self.wf(),
            node < self.adjecents@.len(),
        ensures
            r@ == closure_of(self.adj(), node as int),
            forall|m: usize| #[trigger] r@.contains(m) ==> m < self.adjecents@.len(),
    {
        let mut closure: HashSet<usize> = HashSet::new();
        self.epsilon_closure_inner(node, &mut closure);
        proof {
            assert forall|m: usize| closure@.contains(m) <==> eps_reach(self.adj(), node as int, m as int) by {
                if eps_reach(self.adj(), node as int, m as int) {
                    lemma_closed_holds_reach(self.adj(), closure@, node as int, m as int);
                }
            }
            assert(closure@ =~= closure_of(self.adj(), node as int));
        }
        closure
    }

    fn epsilon_closure_inner(&self, node: usize, closure: &mut HashSet<usize>)
        requires
            self.wf(),
            node < self.adjecents@.len(),
            !old(closure)@.contains(node),
            forall|m: usize| #[trigger] old(closure)@.contains(m) ==> m < self.adjecents@.len(),
        ensures
            old(closure)@.subset_of(final(closure)@),
            final(closure)@.contains(node),
            forall|m: usize| #[trigger] final(closure)@.contains(m) ==> m < self.adjecents@.len(),
            forall|m: usize|
                #[trigger] final(closure)@.contains(m) ==> old(closure)@.contains(m) || eps_reach(
                    self.adj(),
                    node as int,
                    m as int,
                ),
            closed_except(self.adj(), final(closure)@, old(closure)@),
        decreases missing(old(closure)@, self.adjecents@.len() as nat),
    {
        let ghost c0 = closure@;
        let ghost adj = self.adj();
        let ghost n = self.adjecents@.len() as nat;
        closure.insert(node);
        proof {
            lemma_reach_refl(adj, node as int);
            lemma_missing_insert(c0, node, n);
        }
        let row = &self.adjecents[node];
        let mut k: usize = 0;
        while k < row.len()
            invariant
                self.wf(),
                adj == self.adj(),
                n == self.adjecents@.len(),
                row@ == self.adjecents@[node as int]@,
                node < n,
                0 <= k <= row@.len(),
                c0 == old(closure)@,
                c0.insert(node).subset_of(closure@),
                missing(c0.insert(node), n) < missing(c0, n),
                forall|m: usize| #[trigger] closure@.contains(m) ==> m < n,
                forall|m: usize|
                    #[trigger] closure@.contains(m) ==> c0.contains(m) || eps_reach(
                        adj,
                        node as int,
                        m as int,
                    ),
                closed_except(adj, closure@, c0.insert(node)),
                forall|j: int|
                    0 <= j < k && (#[trigger] adj[node as int][j]).label is Epsilon
                        ==> closure@.contains(adj[node as int][j].to as usize),
            decreases row@.len() - k,
        {
            let edge = &row[k];
            assert(adj[node as int][k as int] == edge@);
            assert(adj[node as int][k as int].to < adj.len());
            if edge.is_epsilon() {
                let target = edge.to;
                if !closure.contains(&target) {
                    let ghost c1 = closure@;
                    proof {
                        lemma_missing_mono(c0.insert(node), c1, n);
                    }
                    self.epsilon_closure_inner(target, closure);
                    proof {
                        assert(eps_edge(adj, node as int, target as int));
                        assert forall|m: usize| #[trigger] closure@.contains(m) implies c0.contains(m)
                            || eps_reach(adj, node as int, m as int) by {
                            if !c1.contains(m) {
                                lemma_reach_step(adj, node as int, target as int, m as int);
                            }
                        }
                    }
                }
            }
            k = k + 1;
        }
    }
}

/// The regular edges among the first `k` edges of `row`, in order.
pub open spec fn regular_prefix(row: Seq<EdgeModel>, k: int) -> Seq<EdgeModel>
    decreases k,
{
    if k <= 0 {
        Seq::empty()
    } else if row[k - 1].label is Regular {
        regular_prefix(row, k - 1).push(row[k - 1])
    } else {
        regular_prefix(row, k - 1)
    }
}

/// The regular edges of `row`, in order.
pub open spec fn regular_edges(row: Seq<EdgeModel>) -> Seq<EdgeModel> {
    regular_prefix(row, row.len() as int)
}

/// The regular edges that state `n` takes over from the states `0 .. m` of its
/// epsilon-closure, in the order of those states; targets stay as they are.
pub open spec fn lifted(adj: Seq<Seq<EdgeModel>>, n: int, m: int) -> Seq<EdgeModel>
    decreases m,
{
    if m <= 0 {
        Seq::empty()
    } else if eps_reach(adj, n, m - 1) {
        lifted(adj, n, m - 1) + regular_edges(adj[m - 1])
    } else {
        lifted(adj, n, m - 1)
    }
}

/// The edges after collapsing: each state has the regular edges of every state
/// in its epsilon-closure.
pub open spec fn collapse_adj(adj: Seq<Seq<EdgeModel>>) -> Seq<Seq<EdgeModel>> {
    Seq::new(adj.len(), |n: int| lifted(adj, n, adj.len() as int))
}

/// The accepting states after collapsing: those whose epsilon-closure holds an
/// accepting state.
pub open spec fn collapse_accepting(adj: Seq<Seq<EdgeModel>>, acc: Set<usize>) -> Set<usize> {
    Set::new(
        |n: usize|
            n < adj.len() && exists|m: usize| #[trigger] acc.contains(m) && eps_reach(adj, n as int, m as int),
    )
}

/// Whether no edge of `adj` is an epsilon edge.
pub open spec fn epsilon_free(adj: Seq<Seq<EdgeModel>>) -> bool {
    forall|i: int, k: int|
        0 <= i < adj.len() && 0 <= k < adj[i].len() ==> (#[trigger] adj[i][k]).label is Regular
}

proof fn lemma_regular_prefix_regular(row: Seq<EdgeModel>, k: int)
    ensures
        forall|j: int|
            0 <= j < regular_prefix(row, k).len() ==> (#[trigger] regular_prefix(row, k)[j]).label is Regular,
    decreases k,
{
    if k > 0 {
        lemma_regular_prefix_regular(row, k - 1);
    }
}

proof fn lemma_lifted_regular(adj: Seq<Seq<EdgeModel>>, n: int, m: int)
    ensures
        forall|j: int| 0 <= j < lifted(adj, n, m).len() ==> (#[trigger] lifted(adj, n, m)[j]).label is Regular,
    decreases m,
{
    if m > 0 {
        lemma_lifted_regular(adj, n, m - 1);
        if eps_reach(adj, n, m - 1) {
            lemma_regular_prefix_regular(adj[m - 1], adj[m - 1].len() as int);
            let a = lifted(adj, n, m - 1);
            let b = regular_edges(adj[m - 1]);
            assert forall|j: int| 0 <= j < (a + b).len() implies (#[trigger] (a + b)[j]).label is Regular by {
                if j >= a.len() {
                    assert((a + b)[j] == b[j - a.len()]);
                }
            }
        }
    }
}

/// Collapsing removes every epsilon edge.
pub proof fn lemma_collapse_epsilon_free_result(adj: Seq<Seq<EdgeModel>>)
    ensures
        epsilon_free(collapse_adj(adj)),
{
    assert forall|i: int, k: int|
        0 <= i < collapse_adj(adj).len() && 0 <= k < collapse_adj(adj)[i].len() implies (
        #[trigger] collapse_adj(adj)[i][k]).label is Regular by {
        lemma_lifted_regular(adj, i, adj.len() as int);
    }
}

/// Collapsing an automaton without epsilon edges leaves its edges and its
/// accepting states as they are.
pub proof fn lemma_collapse_epsilon_free(adj: Seq<Seq<EdgeModel>>, acc: Set<usize>)
    requires
        targets_in_range(adj),
        forall|m: usize| #[trigger] acc.contains(m) ==> m < adj.len(),
        epsilon_free(adj),
    ensures
        collapse_adj(adj) == adj,
        collapse_accepting(adj, acc) == acc,
{
    assert forall|n: int, m: int| #[trigger] eps_reach(adj, n, m) implies n == m by {
        let p = choose|p: Seq<int>| #[trigger] is_eps_path(adj, p) && p[0] == n && p.last() == m;
        if p.len() > 1 {
            assert(eps_edge(adj, p[0], p[0int + 1]));
            let k = choose|k: int|
                0 <= k < adj[p[0]].len() && #[trigger] adj[p[0]][k].to == p[1]
                    && adj[p[0]][k].label is Epsilon;
        }
    }
    assert forall|n: int| 0 <= n < adj.len() implies #[trigger] lifted(adj, n, adj.len() as int)
        == adj[n] by {
        lemma_reach_refl(adj, n);
        lemma_lifted_single(adj, n, adj.len() as int);
        lemma_regular_prefix_all(adj[n], adj[n].len() as int);
        assert(adj[n].subrange(0, adj[n].len() as int) =~= adj[n]);
    }
    assert(collapse_adj(adj) =~= adj);
    assert forall|x: usize| collapse_accepting(adj, acc).contains(x) <==> acc.contains(x) by {
        if acc.contains(x) {
            lemma_reach_refl(adj, x as int);
        }
    }
    assert(collapse_accepting(adj, acc) =~= acc);
}

proof fn lemma_lifted_single(adj: Seq<Seq<EdgeModel>>, n: int, m: int)
    requires
        0 <= n < adj.len(),
        forall|a: int, b: int| #[trigger] eps_reach(adj, a, b) ==> a == b,
        eps_reach(adj, n, n),
    ensures
        lifted(adj, n, m) == (if m > n {
            regular_edges(adj[n])
        } else {
            Seq::empty()
        }),
    decreases m,
{
    if m > 0 {
        lemma_lifted_single(adj, n, m - 1);
        if m - 1 == n {
            assert(Seq::<EdgeModel>::empty() + regular_edges(adj[n]) =~= regular_edges(adj[n]));
        }
    }
}

proof fn lemma_regular_prefix_all(row: Seq<EdgeModel>, k: int)
    requires
        0 <= k <= row.len(),
        forall|j: int| 0 <= j < row.len() ==> (#[trigger] row[j]).label is Regular,
    ensures
        regular_prefix(row, k) == row.subrange(0, k),
    decreases k,
{
    if k > 0 {
        lemma_regular_prefix_all(row, k - 1);
        assert(row.subrange(0, k - 1).push(row[k - 1]) =~= row.subrange(0, k));
    } else {
        assert(row.subrange(0, 0) =~= Seq::<EdgeModel>::empty());
    }
}

impl NFA {
    /// The epsilon-closure of every state, in state order.
    pub fn epsilon_closures(&self) -> (r: Vec<HashSet<usize>>)
        requires
            self.wf(),
        ensures
            r@.len() == self.adjecents@.len(),
            forall|n: int| 0 <= n < r@.len() ==> #[trigger] r@[n]@ == closure_of(self.adj(), n),
    {
        let mut closures: Vec<HashSet<usize>> = Vec::new();
        let mut n: usize = 0;
        while n < self.adjecents.len()
            invariant
                self.wf(),
                n <= self.adjecents@.len(),
                closures@.len() == n,
                forall|i: int| 0 <= i < n ==> #[trigger] closures@[i]@ == closure_of(self.adj(), i),
            decreases self.adjecents@.len() - n,
        {
            let c = self.epsilon_closure(n);
            closures.push(c);
            n = n + 1;
        }
        closures
    }

    /// The states whose epsilon-closure holds an accepting state.
    fn accepting_nodes(&self, closures: &Vec<HashSet<usize>>) -> (r: HashSet<usize>)
        requires
            self.wf(),
            closures@.len() == self.adjecents@.len(),
            forall|n: int| 0 <= n < closures@.len() ==> #[trigger] closures@[n]@ == closure_of(self.adj(), n),
        ensures
            r@ == collapse_accepting(self.adj(), self.accepting@),
    {
        let ghost adj = self.adj();
        let len = self.adjecents.len();
        let mut result: HashSet<usize> = HashSet::new();
        let mut n: usize = 0;
        while n < len
            invariant
                self.wf(),
                adj == self.adj(),
                len == self.adjecents@.len(),
                closures@.len() == len,
                forall|i: int| 0 <= i < closures@.len() ==> #[trigger] closures@[i]@ == closure_of(adj, i),
                n <= len,
                forall|x: usize|
                    #[trigger] result@.contains(x) <==> x < n && collapse_accepting(
                        adj,
                        self.accepting@,
                    ).contains(x),
            decreases len - n,
        {
            let mut found = false;
            let mut m: usize = 0;
            while m < len
                invariant
                    self.wf(),
                    adj == self.adj(),
                    len == self.adjecents@.len(),
                    closures@.len() == len,
                    n < len,
                    closures@[n as int]@ == closure_of(adj, n as int),
                    m <= len,
                    found == exists|y: usize|
                        y < m && #[trigger] self.accepting@.contains(y) && eps_reach(
                            adj,
                            n as int,
                            y as int,
                        ),
                decreases len - m,
            {
                if closures[n].contains(&m) && self.accepting.contains(&m) {
                    found = true;
                }
                m = m + 1;
            }
            if found {
                result.insert(n);
            }
            n = n + 1;
        }
        proof {
            assert(result@ =~= collapse_accepting(adj, self.accepting@));
        }
        result
    }

    /// Replaces the edges of each state by the regular edges of every state in
    /// its epsilon-closure.
    fn lift_edges(&mut self, closures: &Vec<HashSet<usize>>)
        requires
            old(self).wf(),
            closures@.len() == old(self).adjecents@.len(),
            forall|n: int|
                0 <= n < closures@.len() ==> #[trigger] closures@[n]@ == closure_of(old(self).adj(), n),
        ensures
            final(self).start == old(self).start,
            final(self).accepting@ == old(self).accepting@,
            final(self).adj() == collapse_adj(old(self).adj()),
            final(self).wf(),
    {
        let ghost adj = self.adj();
        let len = self.adjecents.len();
        let mut adjecents: Vec<Vec<Edge>> = Vec::new();
        let mut n: usize = 0;
        while n < len
            invariant
                self.wf(),
                adj == self.adj(),
                len == self.adjecents@.len(),
                closures@.len() == len,
                forall|i: int| 0 <= i < closures@.len() ==> #[trigger] closures@[i]@ == closure_of(adj, i),
                n <= len,
                adjecents@.len() == n,
                forall|i: int| 0 <= i < n ==> #[trigger] adj_model(adjecents@)[i] == lifted(adj, i, len as int),
                forall|i: int, k: int|
                    0 <= i < n && 0 <= k < adj_model(adjecents@)[i].len() ==> 0 <= #[trigger] adj_model(
                        adjecents@,
                    )[i][k].to < len,
            decreases len - n,
        {
            let mut row: Vec<Edge> = Vec::new();
            let mut m: usize = 0;
            while m < len
                invariant
                    self.wf(),
                    adj == self.adj(),
                    len == self.adjecents@.len(),
                    closures@.len() == len,
                    n < len,
                    closures@[n as int]@ == closure_of(adj, n as int),
                    m <= len,
                    row_model(row@) == lifted(adj, n as int, m as int),
                    forall|k: int| 0 <= k < row@.len() ==> 0 <= #[trigger] row@[k]@.to < len,
                decreases len - m,
            {
                if closures[n].contains(&m) {
                    let source = &self.adjecents[m];
                    let mut k: usize = 0;
                    while k < source.len()
                        invariant
                            self.wf(),
                            adj == self.adj(),
                            len == self.adjecents@.len(),
                            m < len,
                            source@ == self.adjecents@[m as int]@,
                            k <= source@.len(),
                            row_model(row@) == lifted(adj, n as int, m as int) + regular_prefix(
                                adj[m as int],
                                k as int,
                            ),
                            forall|j: int| 0 <= j < row@.len() ==> 0 <= #[trigger] row@[j]@.to < len,
                        decreases source@.len() - k,
                    {
                        let edge = &source[k];
                        assert(adj[m as int][k as int] == edge@);
                        assert(adj[m as int][k as int].to < adj.len());
                        let ghost before = row_model(row@);
                        if !edge.is_epsilon() {
                            row.push(edge.duplicate());
                            proof {
                                assert(row_model(row@) =~= before.push(edge@));
                            }
                        }
                        k = k + 1;
                    }
                    proof {
                        assert(source@.len() == adj[m as int].len());
                    }
                } else {
                    proof {
                        assert(lifted(adj, n as int, m as int) + Seq::empty() =~= lifted(adj, n as int, m as int));
                    }
                }
                m = m + 1;
            }
            let ghost before = adj_model(adjecents@);
            adjecents.push(row);
            proof {
                assert(adj_model(adjecents@) =~= before.push(lifted(adj, n as int, len as int)));
            }
            n = n + 1;
        }
        self.adjecents = adjecents;
        proof {
            assert(self.adj() =~= collapse_adj(adj));
        }
    }

    /// Removes every epsilon edge: a state becomes accepting when its
    /// epsilon-closure holds an accepting state, and takes over the regular
    /// edges of every state in its epsilon-closure, targets unchanged.
    pub fn collapse_epsilons(&mut self)
        requires
            old(self).wf(),
        ensures
            final(self).wf(),
            final(self).start == old(self).start,
            final(self).adj() == collapse_adj(old(self).adj()),
            final(self).accepting@ == collapse_accepting(old(self).adj(), old(self).accepting@),
            epsilon_free(final(self).adj()),
    {
        proof {
            lemma_collapse_epsilon_free_result(self.adj());
        }
        let closures = self.epsilon_closures();
        self.accepting = self.accepting_nodes(&closures);
        self.lift_edges(&closures);
    }
}

} // verus!
