use vstd::prelude::*;

use crate::error::RegexError;
use crate::expression::{lemma_thompson, parse_expr, thompson, Expression, Syntax};
use crate::nfa::{
    adj_model, collapse_accepting, collapse_adj, eps_reach, epsilon_free, lifted,
    regular_edges, regular_prefix, targets_in_range, Edge, EdgeModel, EdgeType, Label, NFA,
};
use crate::utf_parser::{bytes_to_codepoints, segment, units_of, CodePoint, Parser};

verus! {

broadcast use vstd::std_specs::hash::group_hash_axioms;

/// Whether state `i` has an edge to `j` that reads `c`.
pub open spec fn has_edge(adj: Seq<Seq<EdgeModel>>, i: int, j: int, c: Seq<u8>) -> bool {
    0 <= i < adj.len() && exists|k: int|
        0 <= k < adj[i].len() && #[trigger] adj[i][k].to == j && adj[i][k].label == Label::Regular(
            c,
        )
}

/// The states reached from the states in `s` by reading `c`.
pub open spec fn step(adj: Seq<Seq<EdgeModel>>, s: Set<int>, c: Seq<u8>) -> Set<int> {
    Set::new(|j: int| exists|i: int| #[trigger] s.contains(i) && has_edge(adj, i, j, c))
}

/// The states reached from `start` by reading `word`, all branches at once.
pub open spec fn run(adj: Seq<Seq<EdgeModel>>, start: int, word: Seq<Seq<u8>>) -> Set<int>
    decreases word.len(),
{
    if word.len() == 0 {
        set![start]
    } else {
        step(adj, run(adj, start, word.drop_last()), word.last())
    }
}

/// Whether the automaton accepts `word`: reading it from `start` can end in an
/// accepting state.
pub open spec fn nfa_accepts(
    adj: Seq<Seq<EdgeModel>>,
    start: int,
    acc: Set<usize>,
    word: Seq<Seq<u8>>,
) -> bool {
    exists|j: usize| #[trigger] acc.contains(j) && run(adj, start, word).contains(j as int)
}

/// The states reached from the states in `s` by one edge that reads `c` and
/// then any number of epsilon edges.
pub open spec fn eps_step(adj: Seq<Seq<EdgeModel>>, s: Set<int>, c: Seq<u8>) -> Set<int> {
    Set::new(
        |b: int|
            exists|m: int, j: int|
                #[trigger] s.contains(m) && #[trigger] has_edge(adj, m, j, c) && eps_reach(adj, j, b),
    )
}

/// The states that an automaton with epsilon edges can be in after reading
/// `word` from `start`, epsilon edges taken freely.
pub open spec fn eps_run(adj: Seq<Seq<EdgeModel>>, start: int, word: Seq<Seq<u8>>) -> Set<int>
    decreases word.len(),
{
    if word.len() == 0 {
        Set::new(|b: int| eps_reach(adj, start, b))
    } else {
        eps_step(adj, eps_run(adj, start, word.drop_last()), word.last())
    }
}

/// Whether an automaton with epsilon edges accepts `word`.
pub open spec fn eps_nfa_accepts(
    adj: Seq<Seq<EdgeModel>>,
    start: int,
    acc: Set<usize>,
    word: Seq<Seq<u8>>,
) -> bool {
    exists|a: usize| #[trigger] acc.contains(a) && eps_run(adj, start, word).contains(a as int)
}

proof fn lemma_regular_prefix_edge(row: Seq<EdgeModel>, kk: int, j: int, c: Seq<u8>)
    requires
        0 <= kk <= row.len(),
    ensures
        (exists|k: int|
            0 <= k < regular_prefix(row, kk).len() && #[trigger] regular_prefix(row, kk)[k].to == j
                && regular_prefix(row, kk)[k].label == Label::Regular(c)) <==> (exists|k: int|
            0 <= k < kk && #[trigger] row[k].to == j && row[k].label == Label::Regular(c)),
    decreases kk,
{
    if kk > 0 {
        lemma_regular_prefix_edge(row, kk - 1, j, c);
        let rp = regular_prefix(row, kk);
        let prev = regular_prefix(row, kk - 1);
        if exists|k: int| 0 <= k < rp.len() && #[trigger] rp[k].to == j && rp[k].label == Label::Regular(c) {
            let k = choose|k: int| 0 <= k < rp.len() && #[trigger] rp[k].to == j && rp[k].label == Label::Regular(c);
            if k < prev.len() {
                assert(rp[k] == prev[k]);
            } else {
                assert(row[kk - 1].to == j);
            }
        }
        if exists|k: int| 0 <= k < kk && #[trigger] row[k].to == j && row[k].label == Label::Regular(c) {
            let k = choose|k: int| 0 <= k < kk && #[trigger] row[k].to == j && row[k].label == Label::Regular(c);
            if k < kk - 1 {
                let k2 = choose|k2: int| 0 <= k2 < prev.len() && #[trigger] prev[k2].to == j && prev[k2].label == Label::Regular(c);
                assert(rp[k2] == prev[k2]);
            } else {
                assert(rp[prev.len() as int] == row[kk - 1]);
            }
        }
    }
}

proof fn lemma_lifted_edge(adj: Seq<Seq<EdgeModel>>, n: int, m: int, j: int, c: Seq<u8>)
    requires
        0 <= m <= adj.len(),
    ensures
        (exists|k: int|
            0 <= k < lifted(adj, n, m).len() && #[trigger] lifted(adj, n, m)[k].to == j
                && lifted(adj, n, m)[k].label == Label::Regular(c)) <==> (exists|x: int|
            0 <= x < m && eps_reach(adj, n, x) && #[trigger] has_edge(adj, x, j, c)),
    decreases m,
{
    if m > 0 {
        lemma_lifted_edge(adj, n, m - 1, j, c);
        let x = m - 1;
        let prev = lifted(adj, n, m - 1);
        let cur = lifted(adj, n, m);
        if eps_reach(adj, n, x) {
            let row = adj[x];
            let re = regular_edges(row);
            lemma_regular_prefix_edge(row, row.len() as int, j, c);
            assert(cur == prev + re);
            if exists|k: int| 0 <= k < cur.len() && #[trigger] cur[k].to == j && cur[k].label == Label::Regular(c) {
                let k = choose|k: int| 0 <= k < cur.len() && #[trigger] cur[k].to == j && cur[k].label == Label::Regular(c);
                if k < prev.len() {
                    assert(cur[k] == prev[k]);
                } else {
                    assert(cur[k] == re[k - prev.len()]);
                    assert(re[k - prev.len()].to == j);
                    let k2 = choose|k2: int| 0 <= k2 < row.len() && #[trigger] row[k2].to == j && row[k2].label == Label::Regular(c);
                    assert(has_edge(adj, x, j, c));
                }
            }
            if exists|y: int| 0 <= y < m && eps_reach(adj, n, y) && #[trigger] has_edge(adj, y, j, c) {
                let y = choose|y: int| 0 <= y < m && eps_reach(adj, n, y) && #[trigger] has_edge(adj, y, j, c);
                if y < x {
                    let k = choose|k: int| 0 <= k < prev.len() && #[trigger] prev[k].to == j && prev[k].label == Label::Regular(c);
                    assert(cur[k] == prev[k]);
                } else {
                    let k2 = choose|k2: int| 0 <= k2 < row.len() && #[trigger] row[k2].to == j && row[k2].label == Label::Regular(c);
                    let k = choose|k: int| 0 <= k < re.len() && #[trigger] re[k].to == j && re[k].label == Label::Regular(c);
                    assert(cur[prev.len() + k] == re[k]);
                }
            }
        } else {
            if exists|y: int| 0 <= y < m && eps_reach(adj, n, y) && #[trigger] has_edge(adj, y, j, c) {
                let y = choose|y: int| 0 <= y < m && eps_reach(adj, n, y) && #[trigger] has_edge(adj, y, j, c);
                assert(y < x);
            }
        }
    }
}

/// An edge of the collapsed automaton is an epsilon walk followed by one edge
/// of the original one.
proof fn lemma_collapsed_edge(adj: Seq<Seq<EdgeModel>>, y: int, j: int, c: Seq<u8>)
    ensures
        has_edge(collapse_adj(adj), y, j, c) <==> (0 <= y < adj.len() && exists|m: int|
            eps_reach(adj, y, m) && #[trigger] has_edge(adj, m, j, c)),
{
    if 0 <= y < adj.len() {
        lemma_lifted_edge(adj, y, adj.len() as int, j, c);
        let row = collapse_adj(adj)[y];
        assert(row == lifted(adj, y, adj.len() as int));
        if exists|m: int| eps_reach(adj, y, m) && #[trigger] has_edge(adj, m, j, c) {
            let m = choose|m: int| eps_reach(adj, y, m) && #[trigger] has_edge(adj, m, j, c);
            assert(0 <= m < adj.len());
        }
    }
}

proof fn lemma_eps_run_run(adj: Seq<Seq<EdgeModel>>, start: int, word: Seq<Seq<u8>>)
    requires
        targets_in_range(adj),
        0 <= start < adj.len(),
    ensures
        forall|a: int|
            #[trigger] eps_run(adj, start, word).contains(a) <==> exists|x: int|
                #[trigger] run(collapse_adj(adj), start, word).contains(x) && eps_reach(adj, x, a),
        forall|x: int| #[trigger] run(collapse_adj(adj), start, word).contains(x) ==> 0 <= x < adj.len(),
    decreases word.len(),
{
    let cadj = collapse_adj(adj);
    if word.len() == 0 {
        assert(run(cadj, start, word) == set![start]);
        assert forall|a: int| #[trigger] eps_run(adj, start, word).contains(a) implies exists|x: int|
            #[trigger] run(collapse_adj(adj), start, word).contains(x) && eps_reach(adj, x, a) by {
            assert(run(cadj, start, word).contains(start));
        }
    } else {
        let prev = word.drop_last();
        let c = word.last();
        let before = run(cadj, start, prev);
        let after = run(cadj, start, word);
        let ebefore = eps_run(adj, start, prev);
        let eafter = eps_run(adj, start, word);
        lemma_eps_run_run(adj, start, prev);
        assert(after == step(cadj, before, c));
        assert(eafter == eps_step(adj, ebefore, c));
        assert forall|x: int| #[trigger] after.contains(x) implies 0 <= x < adj.len() by {
            let y = choose|y: int| #[trigger] before.contains(y) && has_edge(cadj, y, x, c);
            lemma_collapsed_edge(adj, y, x, c);
            let m = choose|m: int| eps_reach(adj, y, m) && #[trigger] has_edge(adj, m, x, c);
            let k = choose|k: int|
                0 <= k < adj[m].len() && #[trigger] adj[m][k].to == x && adj[m][k].label == Label::Regular(c);
        }
        assert forall|a: int| #[trigger] eafter.contains(a) <==> exists|x: int|
            #[trigger] after.contains(x) && eps_reach(adj, x, a) by {
            if eafter.contains(a) {
                let (m, j) = choose|m: int, j: int|
                    #[trigger] ebefore.contains(m) && #[trigger] has_edge(adj, m, j, c) && eps_reach(adj, j, a);
                let y = choose|y: int| #[trigger] before.contains(y) && eps_reach(adj, y, m);
                lemma_collapsed_edge(adj, y, j, c);
                assert(after.contains(j));
            }
            if exists|x: int| #[trigger] after.contains(x) && eps_reach(adj, x, a) {
                let x = choose|x: int| #[trigger] after.contains(x) && eps_reach(adj, x, a);
                let y = choose|y: int| #[trigger] before.contains(y) && has_edge(cadj, y, x, c);
                lemma_collapsed_edge(adj, y, x, c);
                let m = choose|m: int| eps_reach(adj, y, m) && #[trigger] has_edge(adj, m, x, c);
                assert(ebefore.contains(m));
            }
        }
    }
}

/// Collapsing keeps the language: the collapsed automaton accepts a word
/// exactly when the automaton with epsilon edges can read it from its start
/// into an accepting state.
pub proof fn lemma_collapse_keeps_language(
    adj: Seq<Seq<EdgeModel>>,
    start: int,
    acc: Set<usize>,
    word: Seq<Seq<u8>>,
)
    requires
        targets_in_range(adj),
        0 <= start < adj.len(),
        adj.len() <= usize::MAX,
    ensures
        nfa_accepts(collapse_adj(adj), start, collapse_accepting(adj, acc), word) == eps_nfa_accepts(
            adj,
            start,
            acc,
            word,
        ),
{
    let cadj = collapse_adj(adj);
    let cacc = collapse_accepting(adj, acc);
    let r = run(cadj, start, word);
    lemma_eps_run_run(adj, start, word);
    if nfa_accepts(cadj, start, cacc, word) {
        let x = choose|x: usize| #[trigger] cacc.contains(x) && r.contains(x as int);
        let a = choose|a: usize| #[trigger] acc.contains(a) && eps_reach(adj, x as int, a as int);
        assert(eps_run(adj, start, word).contains(a as int));
    }
    if eps_nfa_accepts(adj, start, acc, word) {
        let a = choose|a: usize| #[trigger] acc.contains(a) && eps_run(adj, start, word).contains(a as int);
        let x = choose|x: int| #[trigger] r.contains(x) && eps_reach(adj, x, a as int);
        assert(cacc.contains(x as usize));
    }
}

/// A whole pattern: one expression that uses up every unit.
pub open spec fn parse_pattern(units: Seq<Seq<u8>>) -> Result<Syntax, RegexError> {
    match parse_expr(units, 0) {
        Err(e) => Err(e),
        Ok((s, q)) => if q < units.len() {
            Err(RegexError::UnbalancedGroup)
        } else {
            Ok(s)
        },
    }
}

/// The tree of a pattern given as bytes, or why it has none.
pub open spec fn compile_syntax(pattern: Seq<u8>) -> Result<Syntax, RegexError> {
    match segment(pattern) {
        Err(e) => Err(e),
        Ok(units) => parse_pattern(units),
    }
}

/// A square boolean matrix: entry `(i, j)` says whether one symbol leads from
/// state `i` to state `j`.
pub struct Matrix {
    matrix: Vec<Vec<bool>>,
}

impl View for Matrix {
    type V = Seq<Seq<bool>>;

    closed spec fn view(&self) -> Seq<Seq<bool>> {
        self.matrix@.map_values(|r: Vec<bool>| r@)
    }
}

/// Whether `m` has `n` rows of `n` entries.
pub open spec fn is_square(m: Seq<Seq<bool>>, n: int) -> bool {
    m.len() == n && forall|i: int| 0 <= i < n ==> #[trigger] m[i].len() == n
}

impl Matrix {
    /// A `size` by `size` matrix with every entry false.
    pub fn new(size: usize) -> (r: Self)
        ensures
            is_square(r@, size as int),
            forall|i: int, j: int| 0 <= i < size && 0 <= j < size ==> !#[trigger] r@[i][j],
    {
        let mut matrix: Vec<Vec<bool>> = Vec::new();
        let mut i: usize = 0;
        while i < size
            invariant
                i <= size,
                matrix@.len() == i,
                forall|a: int| 0 <= a < i ==> #[trigger] matrix@[a]@.len() == size,
                forall|a: int, b: int| 0 <= a < i && 0 <= b < size ==> !#[trigger] matrix@[a]@[b],
            decreases size - i,
        {
            let mut row: Vec<bool> = Vec::new();
            let mut j: usize = 0;
            while j < size
                invariant
                    j <= size,
                    row@.len() == j,
                    forall|b: int| 0 <= b < j ==> !#[trigger] row@[b],
                decreases size - j,
            {
                row.push(false);
                j = j + 1;
            }
            matrix.push(row);
            i = i + 1;
        }
        Self { matrix }
    }

    fn set(&mut self, i: usize, j: usize)
        requires
            i < old(self)@.len(),
            j < old(self)@[i as int].len(),
        ensures
            final(self)@ == old(self)@.update(i as int, old(self)@[i as int].update(j as int, true)),
    {
        self.matrix[i][j] = true;
        proof {
            assert(self@ =~= old(self)@.update(i as int, old(self)@[i as int].update(j as int, true)));
        }
    }

    /// One step of all branches at once: entry `j` of the result is true when
    /// some `i` with `input[i]` has entry `(i, j)` true.
    fn bool_mul(&self, input: &[bool]) -> (r: Vec<bool>)
        requires
            is_square(self@, input@.len() as int),
        ensures
            r@.len() == input@.len(),
            forall|j: int|
                0 <= j < r@.len() ==> #[trigger] r@[j] == exists|i: int|
                    0 <= i < input@.len() && input@[i] && #[trigger] self@[i][j],
    {
        let n = self.matrix.len();
        let mut reach: Vec<bool> = Vec::new();
        let mut j: usize = 0;
        while j < n
            invariant
                j <= n,
                reach@.len() == j,
                forall|b: int| 0 <= b < j ==> !#[trigger] reach@[b],
            decreases n - j,
        {
            reach.push(false);
            j = j + 1;
        }
        let mut idx: usize = 0;
        while idx < n
            invariant
                n == self@.len(),
                is_square(self@, input@.len() as int),
                idx <= n,
                reach@.len() == n,
                forall|b: int|
                    0 <= b < n ==> #[trigger] reach@[b] == exists|i: int|
                        0 <= i < idx && input@[i] && #[trigger] self@[i][b],
            decreases n - idx,
        {
            if input[idx] {
                let row = &self.matrix[idx];
                assert(row@ == self@[idx as int]);
                let mut k: usize = 0;
                while k < n
                    invariant
                        n == self@.len(),
                        is_square(self@, input@.len() as int),
                        idx < n,
                        input@[idx as int],
                        row@ == self@[idx as int],
                        k <= n,
                        reach@.len() == n,
                        forall|b: int|
                            0 <= b < n ==> #[trigger] reach@[b] == ((exists|i: int|
                                0 <= i < idx && input@[i] && #[trigger] self@[i][b]) || (b < k
                                && self@[idx as int][b])),
                    decreases n - k,
                {
                    if row[k] {
                        reach[k] = true;
                    }
                    k = k + 1;
                }
            }
            idx = idx + 1;
        }
        reach
    }
}

/// A compiled pattern: the automaton of the pattern with its epsilon edges
/// collapsed.
pub struct Regex {
    nfa: NFA,
}

/// Whether the edge `(a, k)` comes before position `k0` of state `i0`, in the
/// order state by state, edge by edge.
pub open spec fn edge_done(i0: int, k0: int, a: int, k: int) -> bool {
    a < i0 || (a == i0 && k < k0)
}

/// `has_edge` over the edges before position `k0` of state `i0`.
pub open spec fn has_edge_before(
    adj: Seq<Seq<EdgeModel>>,
    i0: int,
    k0: int,
    a: int,
    b: int,
    c: Seq<u8>,
) -> bool {
    0 <= a < adj.len() && exists|k: int|
        0 <= k < adj[a].len() && edge_done(i0, k0, a, k) && #[trigger] adj[a][k].to == b
            && adj[a][k].label == Label::Regular(c)
}

/// One matrix per symbol that some edge reads.
struct Transitions {
    labels: Vec<CodePoint>,
    matrices: Vec<Matrix>,
}

impl Transitions {
    spec fn labels_view(&self) -> Seq<Seq<u8>> {
        units_of(self.labels@)
    }

    /// The table holds the edges of `adj` before position `k0` of state `i0`.
    spec fn holds_before(&self, adj: Seq<Seq<EdgeModel>>, i0: int, k0: int) -> bool {
        let labels = self.labels_view();
        let n = adj.len() as int;
        &&& self.labels@.len() == self.matrices@.len()
        &&& forall|t: int, u: int|
            0 <= t < u < labels.len() ==> #[trigger] labels[t] != #[trigger] labels[u]
        &&& forall|t: int| 0 <= t < labels.len() ==> is_square(#[trigger] self.matrices@[t]@, n)
        &&& forall|t: int, a: int, b: int|
            0 <= t < labels.len() && 0 <= a < n && 0 <= b < n ==> #[trigger] self.matrices@[t]@[a][b]
                == has_edge_before(adj, i0, k0, a, b, labels[t])
        &&& forall|a: int, k: int|
            0 <= a < n && 0 <= k < adj[a].len() && edge_done(i0, k0, a, k) && (#[trigger] adj[a][k]).label is Regular
                ==> exists|t: int| 0 <= t < labels.len() && Label::Regular(#[trigger] labels[t]) == adj[a][k].label
    }

    /// The table holds every edge of `adj`.
    spec fn holds(&self, adj: Seq<Seq<EdgeModel>>) -> bool {
        &&& self.holds_before(adj, adj.len() as int, 0)
        &&& forall|t: int, a: int, b: int|
            0 <= t < self.labels@.len() && 0 <= a < adj.len() && 0 <= b < adj.len()
                ==> #[trigger] self.matrices@[t]@[a][b] == has_edge(adj, a, b, self.labels_view()[t])
        &&& forall|c: Seq<u8>, a: int, b: int|
            #[trigger] has_edge(adj, a, b, c) ==> exists|t: int|
                0 <= t < self.labels@.len() && #[trigger] self.labels_view()[t] == c
    }

    /// The position of the matrix for `c`.
    fn find(&self, c: &CodePoint) -> (r: Option<usize>)
        requires
            self.labels@.len() == self.matrices@.len(),
        ensures
            match r {
                Some(t) => t < self.labels@.len() && self.labels_view()[t as int] == c@,
                None => forall|t: int| 0 <= t < self.labels@.len() ==> self.labels_view()[t] != c@,
            },
    {
        let mut t: usize = 0;
        while t < self.labels.len()
            invariant
                t <= self.labels@.len(),
                forall|u: int| 0 <= u < t ==> self.labels_view()[u] != c@,
            decreases self.labels@.len() - t,
        {
            if self.labels[t].same(c) {
                return Some(t);
            }
            t = t + 1;
        }
        None
    }
}

impl Regex {
    /// One matrix per symbol read by an edge of `neighbour_list`: entry
    /// `(i, j)` is true when an edge from `i` to `j` reads that symbol.
    fn neighbour_list_to_neighbour_matrix(&self, neighbour_list: &Vec<Vec<Edge>>) -> (r: Transitions)
        requires
            targets_in_range(adj_model(neighbour_list@)),
            epsilon_free(adj_model(neighbour_list@)),
            neighbour_list@.len() <= usize::MAX,
        ensures
            r.holds(adj_model(neighbour_list@)),
    {
        let ghost adj = adj_model(neighbour_list@);
        let size = neighbour_list.len();
        let mut table = Transitions { labels: Vec::new(), matrices: Vec::new() };
        let mut i: usize = 0;
        while i < size
            invariant
                adj == adj_model(neighbour_list@),
                size == adj.len(),
                targets_in_range(adj),
                epsilon_free(adj),
                i <= size,
                table.holds_before(adj, i as int, 0),
            decreases size - i,
        {
            let neighbors = &neighbour_list[i];
            let mut k: usize = 0;
            while k < neighbors.len()
                invariant
                    adj == adj_model(neighbour_list@),
                    size == adj.len(),
                    targets_in_range(adj),
                    epsilon_free(adj),
                    i < size,
                    neighbors@ == neighbour_list@[i as int]@,
                    k <= neighbors@.len(),
                    table.holds_before(adj, i as int, k as int),
                decreases neighbors@.len() - k,
            {
                let edge = &neighbors[k];
                assert(adj[i as int][k as int] == edge@);
                assert(adj[i as int][k as int].to < adj.len());
                match &edge.kind {
                    EdgeType::Regular(code_point) => {
                        let j = edge.to;
                        let ghost old_table = table;
                        let t = match table.find(code_point) {
                            Some(t) => t,
                            None => {
                                table.labels.push(code_point.duplicate());
                                table.matrices.push(Matrix::new(size));
                                proof {
                                    assert(table.labels_view() =~= old_table.labels_view().push(code_point@));
                                }
                                table.labels.len() - 1
                            },
                        };
                        table.matrices[t].set(i, j);
                        proof {
                            let labels = table.labels_view();
                            assert(labels[t as int] == code_point@);
                            assert forall|u: int, a: int, b: int|
                                0 <= u < labels.len() && 0 <= a < size && 0 <= b < size
                                implies #[trigger] table.matrices@[u]@[a][b] == has_edge_before(
                                adj, i as int, k + 1, a, b, labels[u]) by {
                                if has_edge_before(adj, i as int, k + 1, a, b, labels[u]) && !(a == i && b == j && u == t) {
                                    let kk = choose|kk: int|
                                        0 <= kk < adj[a].len() && edge_done(i as int, k + 1, a, kk)
                                            && #[trigger] adj[a][kk].to == b && adj[a][kk].label == Label::Regular(labels[u]);
                                    if a == i && kk == k {
                                        assert(u == t);
                                    }
                                }
                                if u < old_table.labels@.len() && has_edge_before(adj, i as int, k as int, a, b, labels[u]) {
                                    assert(old_table.labels_view()[u] == labels[u]);
                                }
                                if u == t && a == i && b == j {
                                    assert(adj[a][k as int].to == b);
                                }
                            }
                            assert forall|a: int, kk: int|
                                0 <= a < size && 0 <= kk < adj[a].len() && edge_done(i as int, k + 1, a, kk)
                                    && (#[trigger] adj[a][kk]).label is Regular
                                implies exists|u: int| 0 <= u < labels.len() && Label::Regular(#[trigger] labels[u]) == adj[a][kk].label by {
                                if a == i && kk == k {
                                    assert(Label::Regular(labels[t as int]) == adj[a][kk].label);
                                } else {
                                    let u = choose|u: int| 0 <= u < old_table.labels_view().len() && Label::Regular(#[trigger] old_table.labels_view()[u]) == adj[a][kk].label;
                                    assert(labels[u] == old_table.labels_view()[u]);
                                }
                            }
                        }
                    },
                    EdgeType::Epsilon => {
                        // a collapsed automaton has no epsilon edge
                        proof {
                            assert(false);
                        }
                    },
                }
                k = k + 1;
            }
            proof {
                let labels = table.labels_view();
                assert forall|u: int, a: int, b: int|
                    0 <= u < labels.len() && 0 <= a < size && 0 <= b < size
                    implies #[trigger] table.matrices@[u]@[a][b] == has_edge_before(
                    adj, i + 1, 0, a, b, labels[u]) by {
                    if has_edge_before(adj, i + 1, 0, a, b, labels[u]) {
                        let kk = choose|kk: int|
                            0 <= kk < adj[a].len() && edge_done(i + 1, 0, a, kk)
                                && #[trigger] adj[a][kk].to == b && adj[a][kk].label == Label::Regular(labels[u]);
                        assert(has_edge_before(adj, i as int, k as int, a, b, labels[u]));
                    }
                    if has_edge_before(adj, i as int, k as int, a, b, labels[u]) {
                        let kk = choose|kk: int|
                            0 <= kk < adj[a].len() && edge_done(i as int, k as int, a, kk)
                                && #[trigger] adj[a][kk].to == b && adj[a][kk].label == Label::Regular(labels[u]);
                        assert(has_edge_before(adj, i + 1, 0, a, b, labels[u]));
                    }
                }
            }
            i = i + 1;
        }
        proof {
            let labels = table.labels_view();
            assert forall|u: int, a: int, b: int|
                0 <= u < labels.len() && 0 <= a < size && 0 <= b < size
                implies #[trigger] table.matrices@[u]@[a][b] == has_edge(adj, a, b, labels[u]) by {
                if has_edge(adj, a, b, labels[u]) {
                    let kk = choose|kk: int|
                        0 <= kk < adj[a].len() && #[trigger] adj[a][kk].to == b && adj[a][kk].label == Label::Regular(labels[u]);
                    assert(has_edge_before(adj, size as int, 0, a, b, labels[u]));
                }
            }
            assert forall|c: Seq<u8>, a: int, b: int|
                #[trigger] has_edge(adj, a, b, c) implies exists|t: int|
                    0 <= t < table.labels@.len() && #[trigger] table.labels_view()[t] == c by {
                let kk = choose|kk: int|
                    0 <= kk < adj[a].len() && #[trigger] adj[a][kk].to == b && adj[a][kk].label == Label::Regular(c);
                assert(edge_done(size as int, 0, a, kk));
                assert(adj[a][kk].label is Regular);
                let u = choose|u: int| 0 <= u < labels.len() && Label::Regular(#[trigger] labels[u]) == adj[a][kk].label;
                assert(labels[u] == c);
            }
        }
        table
    }
}

proof fn lemma_step_in_range(adj: Seq<Seq<EdgeModel>>, s: Set<int>, c: Seq<u8>, j: int)
    requires
        targets_in_range(adj),
        step(adj, s, c).contains(j),
    ensures
        0 <= j < adj.len(),
{
    let i = choose|i: int| #[trigger] s.contains(i) && has_edge(adj, i, j, c);
    let k = choose|k: int|
        0 <= k < adj[i].len() && #[trigger] adj[i][k].to == j && adj[i][k].label == Label::Regular(c);
}

proof fn lemma_run_stays_empty(adj: Seq<Seq<EdgeModel>>, start: int, word: Seq<Seq<u8>>, i: int)
    requires
        0 <= i <= word.len(),
        run(adj, start, word.subrange(0, i)) =~= Set::<int>::empty(),
    ensures
        run(adj, start, word) =~= Set::<int>::empty(),
    decreases word.len(),
{
    if word.len() == i {
        assert(word.subrange(0, i) =~= word);
    } else {
        assert(word.drop_last().subrange(0, i) =~= word.subrange(0, i));
        lemma_run_stays_empty(adj, start, word.drop_last(), i);
    }
}

fn any_set(v: &Vec<bool>) -> (r: bool)
    ensures
        r == exists|j: int| 0 <= j < v@.len() && #[trigger] v@[j],
{
    let mut j: usize = 0;
    while j < v.len()
        invariant
            j <= v@.len(),
            forall|b: int| 0 <= b < j ==> !#[trigger] v@[b],
        decreases v@.len() - j,
    {
        if v[j] {
            return true;
        }
        j = j + 1;
    }
    false
}

/// Matching depends on nothing but the automaton and the word: two matches of
/// one word on one compiled pattern give one answer.
pub proof fn lemma_matching_is_deterministic(
    adj: Seq<Seq<EdgeModel>>,
    start: int,
    acc: Set<usize>,
    w1: Seq<Seq<u8>>,
    w2: Seq<Seq<u8>>,
)
    requires
        w1 == w2,
    ensures
        nfa_accepts(adj, start, acc, w1) == nfa_accepts(adj, start, acc, w2),
{
}

impl Regex {
    /// The edges of the collapsed automaton.
    pub closed spec fn adj(&self) -> Seq<Seq<EdgeModel>> {
        self.nfa.adj()
    }

    /// Its start state.
    pub closed spec fn start(&self) -> int {
        self.nfa.start as int
    }

    /// Its accepting states.
    pub closed spec fn accepting(&self) -> Set<usize> {
        self.nfa.accepting@
    }

    /// The automaton is well formed and has no epsilon edge.
    pub closed spec fn wf(&self) -> bool {
        self.nfa.wf() && epsilon_free(self.nfa.adj())
    }

    /// Compiles a pattern: splits it into code units, parses it, builds its
    /// automaton and collapses the epsilon edges. Fails on a malformed UTF-8
    /// buffer, on a missing atom, and on a `(` or `)` without its partner.
    pub fn new(pattern: Vec<u8>) -> (r: Result<Self, RegexError>)
        ensures
            match r {
                Ok(re) => {
                    &&& re.wf()
                    &&& compile_syntax(pattern@) is Ok
                    &&& ({
                        let (rows, st, en) = thompson(compile_syntax(pattern@)->Ok_0, 0);
                        &&& re.adj() == collapse_adj(rows)
                        &&& re.start() == st
                        &&& re.accepting() == collapse_accepting(rows, set![en as usize])
                    })
                },
                Err(e) => compile_syntax(pattern@) == Err::<Syntax, RegexError>(e),
            },
    {
        let mut parser = match Parser::from_bytes(pattern) {
            Ok(p) => p,
            Err(e) => return Err(e),
        };
        let expression = match Expression::parse(&mut parser) {
            Ok(e) => e,
            Err(e) => return Err(e),
        };
        if parser.peek().is_some() {
            return Err(RegexError::UnbalancedGroup);
        }
        let mut nfa = expression.nfa();
        nfa.collapse_epsilons();
        proof {
            lemma_thompson(expression.syntax(), 0);
        }
        Ok(Self { nfa })
    }

    /// Whether the pattern matches the whole of `input`. All branches of the
    /// automaton are followed at once; a symbol that no edge reads, or a step
    /// that leaves no state, rejects at once.
    pub fn accepts(&self, input: Vec<CodePoint>) -> (r: bool)
        requires
            self.wf(),
        ensures
            r == nfa_accepts(self.adj(), self.start(), self.accepting(), units_of(input@)),
    {
        let ghost adj = self.adj();
        let ghost word = units_of(input@);
        let n = self.nfa.adjecents.len();
        let table = self.neighbour_list_to_neighbour_matrix(&self.nfa.adjecents);
        let mut state: Vec<bool> = Vec::new();
        let mut j: usize = 0;
        while j < n
            invariant
                j <= n,
                state@.len() == j,
                forall|b: int| 0 <= b < j ==> #[trigger] state@[b] == (b == self.start()),
            decreases n - j,
        {
            state.push(j == self.nfa.start);
            j = j + 1;
        }
        proof {
            assert(word.subrange(0, 0) =~= Seq::<Seq<u8>>::empty());
        }
        let mut idx: usize = 0;
        while idx < input.len()
            invariant
                self.wf(),
                adj == self.adj(),
                n == adj.len(),
                word == units_of(input@),
                table.holds(adj),
                idx <= input@.len(),
                state@.len() == n,
                forall|b: int| 0 <= b < n ==> #[trigger] state@[b] == run(adj, self.start(), word.subrange(0, idx as int)).contains(b),
                forall|b: int| #[trigger] run(adj, self.start(), word.subrange(0, idx as int)).contains(b) ==> 0 <= b < n,
            decreases input@.len() - idx,
        {
            let ghost before = run(adj, self.start(), word.subrange(0, idx as int));
            let ghost c = word[idx as int];
            proof {
                assert(word.subrange(0, idx + 1).drop_last() =~= word.subrange(0, idx as int));
                assert(word.subrange(0, idx + 1).last() == c);
            }
            let ghost after = run(adj, self.start(), word.subrange(0, idx + 1));
            let t = match table.find(&input[idx]) {
                Some(t) => t,
                None => {
                    proof {
                        assert(after =~= Set::<int>::empty()) by {
                            assert forall|b: int| !after.contains(b) by {
                                if after.contains(b) {
                                    let i = choose|i: int| #[trigger] before.contains(i) && has_edge(adj, i, b, c);
                                    let u = choose|u: int| 0 <= u < table.labels@.len() && #[trigger] table.labels_view()[u] == c;
                                }
                            }
                        }
                        lemma_run_stays_empty(adj, self.start(), word, idx + 1);
                    }
                    return false;
                },
            };
            let next = table.matrices[t].bool_mul(state.as_slice());
            proof {
                assert forall|b: int| 0 <= b < n implies #[trigger] next@[b] == after.contains(b) by {
                    if next@[b] {
                        let i = choose|i: int| 0 <= i < state@.len() && state@[i] && #[trigger] table.matrices@[t as int]@[i][b];
                        assert(has_edge(adj, i, b, c));
                    }
                    if after.contains(b) {
                        let i = choose|i: int| #[trigger] before.contains(i) && has_edge(adj, i, b, c);
                        assert(table.matrices@[t as int]@[i][b]);
                        assert(state@[i]);
                    }
                }
                assert forall|b: int| #[trigger] after.contains(b) implies 0 <= b < n by {
                    lemma_step_in_range(adj, before, c, b);
                }
            }
            state = next;
            if !any_set(&state) {
                proof {
                    assert(after =~= Set::<int>::empty()) by {
                        assert forall|b: int| !after.contains(b) by {
                            if after.contains(b) {
                                assert(state@[b]);
                            }
                        }
                    }
                    lemma_run_stays_empty(adj, self.start(), word, idx + 1);
                }
                return false;
            }
            idx = idx + 1;
        }
        proof {
            assert(word.subrange(0, input@.len() as int) =~= word);
        }
        let mut j: usize = 0;
        while j < n
            invariant
                self.wf(),
                adj == self.adj(),
                n == adj.len(),
                j <= n,
                state@.len() == n,
                word == units_of(input@),
                forall|b: int| 0 <= b < n ==> #[trigger] state@[b] == run(adj, self.start(), word).contains(b),
                forall|b: int| #[trigger] run(adj, self.start(), word).contains(b) ==> 0 <= b < n,
                forall|b: usize| b < j ==> !(#[trigger] self.accepting().contains(b) && run(adj, self.start(), word).contains(b as int)),
            decreases n - j,
        {
            if state[j] && self.nfa.accepting.contains(&j) {
                return true;
            }
            j = j + 1;
        }
        proof {
            assert forall|b: usize| #[trigger] self.accepting().contains(b) implies !run(adj, self.start(), word).contains(b as int) by {
                if run(adj, self.start(), word).contains(b as int) {
                    assert(b < n);
                }
            }
        }
        false
    }

    /// Splits `input` into code units and matches it; fails as
    /// [`bytes_to_codepoints`] does.
    pub fn accepts_bytes(&self, input: Vec<u8>) -> (r: Result<bool, RegexError>)
        requires
            self.wf(),
        ensures
            match segment(input@) {
                Ok(units) => r == Ok::<bool, RegexError>(
                    nfa_accepts(self.adj(), self.start(), self.accepting(), units),
                ),
                Err(e) => r == Err::<bool, RegexError>(e),
            },
    {
        match bytes_to_codepoints(input) {
            Ok(units) => Ok(self.accepts(units)),
            Err(e) => Err(e),
        }
    }
}

} // verus!
