use vstd::prelude::*;

use std::collections::HashSet;

use crate::error::RegexError;
use crate::nfa::{adj_model, row_model, Edge, EdgeModel, EdgeType, Label, NFA};
use crate::utf_parser::{CodePoint, Parser, CLOSE_PAREN, OPEN_PAREN, PIPE};

verus! {

/// The mathematical shape of a pattern.
pub enum Syntax {
    /// One code unit, by its bytes.
    Literal(Seq<u8>),
    /// Its parts one after the other.
    Sequence(Seq<Syntax>),
    /// Either of two parts.
    Alternation(Box<Syntax>, Box<Syntax>),
}

/// Whether every sequence in `s` has at least two parts.
pub open spec fn well_formed(s: Syntax) -> bool
    decreases s, 1int,
{
    match s {
        Syntax::Literal(_) => true,
        Syntax::Sequence(items) => items.len() >= 2 && all_well_formed(items),
        Syntax::Alternation(l, r) => well_formed(*l) && well_formed(*r),
    }
}

/// Whether every part in `items` is well formed.
pub open spec fn all_well_formed(items: Seq<Syntax>) -> bool
    decreases items, 0int,
{
    items.len() == 0 || (all_well_formed(items.drop_last()) && well_formed(items.last()))
}

proof fn lemma_all_well_formed(items: Seq<Syntax>)
    ensures
        all_well_formed(items) <==> forall|i: int|
            0 <= i < items.len() ==> #[trigger] well_formed(items[i]),
    decreases items.len(),
{
    if items.len() > 0 {
        lemma_all_well_formed(items.drop_last());
        if forall|i: int| 0 <= i < items.len() ==> #[trigger] well_formed(items[i]) {
            assert forall|i: int| 0 <= i < items.drop_last().len() implies #[trigger] well_formed(
                items.drop_last()[i],
            ) by {
                assert(items.drop_last()[i] == items[i]);
            }
            assert(well_formed(items[items.len() - 1]));
        }
        if all_well_formed(items) {
            assert forall|i: int| 0 <= i < items.len() implies #[trigger] well_formed(
                items[i],
            ) by {
                if i < items.len() - 1 {
                    assert(items.drop_last()[i] == items[i]);
                }
            }
        }
    }
}

/// How many automaton states the construction allocates for `s`.
pub open spec fn state_count(s: Syntax) -> nat
    decreases s, 1int,
{
    match s {
        Syntax::Literal(_) => 2,
        Syntax::Sequence(items) => state_count_list(items),
        Syntax::Alternation(l, r) => 2 + state_count(*l) + state_count(*r),
    }
}

/// The states allocated for a list of parts.
pub open spec fn state_count_list(items: Seq<Syntax>) -> nat
    decreases items, 0int,
{
    if items.len() == 0 {
        0
    } else {
        state_count_list(items.drop_last()) + state_count(items.last())
    }
}

/// Whether the unit `u` is the single byte `b`.
pub open spec fn is_sign(u: Seq<u8>, b: u8) -> bool {
    u == seq![b]
}

/// Puts `pre` in front of the parts that a successful parse returns.
pub open spec fn prepend_items(
    pre: Seq<Syntax>,
    r: Result<(Seq<Syntax>, int), RegexError>,
) -> Result<(Seq<Syntax>, int), RegexError> {
    match r {
        Ok((rest, q)) => Ok((pre + rest, q)),
        Err(e) => Err(e),
    }
}

/// The units of one expression from `p`: they run up to the end of the input
/// or to a `)`; returns the parts and the position after them.
pub open spec fn parse_items(s: Seq<Seq<u8>>, p: int) -> Result<(Seq<Syntax>, int), RegexError>
    decreases s.len() - p, 1int,
{
    if p < 0 || p >= s.len() || is_sign(s[p], CLOSE_PAREN) {
        Ok((seq![], p))
    } else {
        match parse_unit_at(s, p) {
            Err(e) => Err(e),
            Ok((u, q)) => {
                // every unit consumes input, so the guard always holds
                if p < q <= s.len() {
                    prepend_items(seq![u], parse_items(s, q))
                } else {
                    Err(RegexError::UnexpectedEndOfInput)
                }
            },
        }
    }
}

/// One expression from `p`: no unit is an error, one unit stands alone, more
/// form a sequence.
pub open spec fn parse_expr(s: Seq<Seq<u8>>, p: int) -> Result<(Syntax, int), RegexError>
    decreases s.len() - p, 2int,
{
    match parse_items(s, p) {
        Err(e) => Err(e),
        Ok((items, q)) => if items.len() == 0 {
            Err(RegexError::UnexpectedEndOfInput)
        } else if items.len() == 1 {
            Ok((items[0], q))
        } else {
            Ok((Syntax::Sequence(items), q))
        },
    }
}

/// One atom from `p` (a group or a literal), then, after a `|`, the unit that
/// forms its alternative.
pub open spec fn parse_unit_at(s: Seq<Seq<u8>>, p: int) -> Result<(Syntax, int), RegexError>
    decreases s.len() - p, 0int,
{
    if p < 0 || p >= s.len() {
        Err(RegexError::UnexpectedEndOfInput)
    } else {
        let atom = if is_sign(s[p], OPEN_PAREN) {
            match parse_expr(s, p + 1) {
                Err(e) => Err(e),
                Ok((e, q)) => if 0 <= q < s.len() && is_sign(s[q], CLOSE_PAREN) {
                    Ok((e, q + 1))
                } else {
                    Err(RegexError::UnbalancedGroup)
                },
            }
        } else {
            Ok((Syntax::Literal(s[p]), p + 1))
        };
        match atom {
            Err(e) => Err(e),
            Ok((left, q)) => {
                // an atom consumes input, so `q > p` always holds
                if p < q < s.len() && is_sign(s[q], PIPE) {
                    match parse_unit_at(s, q + 1) {
                        Err(e) => Err(e),
                        Ok((right, q2)) => Ok(
                            (Syntax::Alternation(Box::new(left), Box::new(right)), q2),
                        ),
                    }
                } else {
                    Ok((left, q))
                }
            },
        }
    }
}

/// An edge that reads nothing.
pub open spec fn eps(to: int) -> EdgeModel {
    EdgeModel { to, label: Label::Epsilon }
}

/// `rows` with `e` appended to the edges of state `i`.
pub open spec fn add_edge(rows: Seq<Seq<EdgeModel>>, i: int, e: EdgeModel) -> Seq<Seq<EdgeModel>> {
    rows.update(i, rows[i].push(e))
}

/// Whether every edge in `rows` leads to a state in `lo .. hi`.
pub open spec fn edges_within(rows: Seq<Seq<EdgeModel>>, lo: int, hi: int) -> bool {
    forall|i: int, k: int|
        0 <= i < rows.len() && 0 <= k < rows[i].len() ==> lo <= #[trigger] rows[i][k].to < hi
}

/// The Thompson construction of `s` on fresh states numbered from `base`: the
/// rows of those states, its start and its end.
pub open spec fn thompson(s: Syntax, base: int) -> (Seq<Seq<EdgeModel>>, int, int)
    decreases s, 1int,
{
    match s {
        Syntax::Literal(c) => (
            seq![seq![EdgeModel { to: base + 1, label: Label::Regular(c) }], Seq::empty()],
            base,
            base + 1,
        ),
        Syntax::Alternation(l, r) => {
            let (lrows, ls, le) = thompson(*l, base + 1);
            let (rrows, rs, re) = thompson(*r, base + 1 + lrows.len());
            let end = base + 1 + lrows.len() + rrows.len();
            let rows = seq![seq![eps(ls), eps(rs)]] + lrows + rrows + seq![Seq::empty()];
            (add_edge(add_edge(rows, le - base, eps(end)), re - base, eps(end)), base, end)
        },
        Syntax::Sequence(items) => thompson_seq(items, items.len() as int, base),
    }
}

/// The construction of the first `k` parts of a sequence, each part's end
/// joined to the next part's start by an epsilon edge.
pub open spec fn thompson_seq(items: Seq<Syntax>, k: int, base: int) -> (
    Seq<Seq<EdgeModel>>,
    int,
    int,
)
    decreases items, k,
{
    if k <= 0 || k > items.len() {
        (Seq::empty(), base, base)
    } else if k == 1 {
        thompson(items[0], base)
    } else {
        let (rows, st, e) = thompson_seq(items, k - 1, base);
        let (rows2, s2, e2) = thompson(items[k - 1], base + rows.len());
        (add_edge(rows, e - base, eps(s2)) + rows2, st, e2)
    }
}

/// Sizes and ranges of the construction.
pub proof fn lemma_thompson(s: Syntax, base: int)
    requires
        well_formed(s),
    ensures
        ({
            let (rows, st, en) = thompson(s, base);
            &&& rows.len() == state_count(s)
            &&& base <= st < base + rows.len()
            &&& base <= en < base + rows.len()
            &&& edges_within(rows, base, base + rows.len())
        }),
    decreases s, 1int,
{
    match s {
        Syntax::Literal(c) => {},
        Syntax::Alternation(l, r) => {
            lemma_thompson(*l, base + 1);
            let (lrows, ls, le) = thompson(*l, base + 1);
            lemma_thompson(*r, base + 1 + lrows.len());
            let (rrows, rs, re) = thompson(*r, base + 1 + lrows.len());
            let end = base + 1 + lrows.len() + rrows.len();
            let rows0 = seq![seq![eps(ls), eps(rs)]] + lrows + rrows + seq![Seq::empty()];
            let hi = base + rows0.len();
            assert(edges_within(rows0, base, hi)) by {
                assert forall|i: int, k: int|
                    0 <= i < rows0.len() && 0 <= k < rows0[i].len() implies base
                    <= #[trigger] rows0[i][k].to < hi by {
                    if i == 0 {
                    } else if i < 1 + lrows.len() {
                        assert(rows0[i] == lrows[i - 1]);
                    } else if i < 1 + lrows.len() + rrows.len() {
                        assert(rows0[i] == rrows[i - 1 - lrows.len()]);
                    }
                }
            }
            let rows1 = add_edge(rows0, le - base, eps(end));
            lemma_add_edge_within(rows0, le - base, eps(end), base, hi);
            lemma_add_edge_within(rows1, re - base, eps(end), base, hi);
        },
        Syntax::Sequence(items) => {
            lemma_all_well_formed(items);
            lemma_thompson_seq(items, items.len() as int, base);
            assert(items.subrange(0, items.len() as int) =~= items);
        },
    }
}

proof fn lemma_add_edge_within(rows: Seq<Seq<EdgeModel>>, i: int, e: EdgeModel, lo: int, hi: int)
    requires
        edges_within(rows, lo, hi),
        0 <= i < rows.len(),
        lo <= e.to < hi,
    ensures
        edges_within(add_edge(rows, i, e), lo, hi),
        add_edge(rows, i, e).len() == rows.len(),
{
    let r = add_edge(rows, i, e);
    assert forall|j: int, k: int| 0 <= j < r.len() && 0 <= k < r[j].len() implies lo
        <= #[trigger] r[j][k].to < hi by {
        if j == i && k == rows[i].len() {
        } else if j == i {
            assert(r[j][k] == rows[i][k]);
        }
    }
}

proof fn lemma_thompson_seq(items: Seq<Syntax>, k: int, base: int)
    requires
        1 <= k <= items.len(),
        forall|i: int| 0 <= i < items.len() ==> #[trigger] well_formed(items[i]),
    ensures
        ({
            let (rows, st, en) = thompson_seq(items, k, base);
            &&& rows.len() == state_count_list(items.subrange(0, k))
            &&& base <= st < base + rows.len()
            &&& base <= en < base + rows.len()
            &&& edges_within(rows, base, base + rows.len())
        }),
    decreases items, k,
{
    assert(items.subrange(0, k).drop_last() =~= items.subrange(0, k - 1));
    assert(items.subrange(0, k).last() == items[k - 1]);
    if k == 1 {
        lemma_thompson(items[0], base);
        assert(items.subrange(0, 0) =~= Seq::<Syntax>::empty());
        assert(state_count_list(Seq::<Syntax>::empty()) == 0);
        assert(state_count_list(items.subrange(0, 1)) == state_count(items[0]));
        assert(thompson_seq(items, 1, base) == thompson(items[0], base));
    } else {
        lemma_thompson_seq(items, k - 1, base);
        let (rows, st, e) = thompson_seq(items, k - 1, base);
        lemma_thompson(items[k - 1], base + rows.len());
        let (rows2, s2, e2) = thompson(items[k - 1], base + rows.len());
        let hi = base + rows.len() + rows2.len();
        assert(edges_within(rows, base, hi));
        lemma_add_edge_within(rows, e - base, eps(s2), base, hi);
        let r1 = add_edge(rows, e - base, eps(s2));
        let all = r1 + rows2;
        assert forall|i: int, j: int| 0 <= i < all.len() && 0 <= j < all[i].len() implies base
            <= #[trigger] all[i][j].to < hi by {
            if i < r1.len() {
                assert(all[i][j] == r1[i][j]);
            } else {
                assert(all[i] == rows2[i - r1.len()]);
            }
        }
        assert(thompson_seq(items, k, base) == (all, st, e2));
        assert(all.len() == rows.len() + rows2.len());
        assert(all.len() == state_count_list(items.subrange(0, k)));
        assert(edges_within(all, base, base + all.len()));
    }
}

/// A single code unit to match.
pub struct Literal {
    value: CodePoint,
}

/// Either of two expressions.
pub struct Alternation {
    left: Box<Expression>,
    right: Box<Expression>,
}

/// Expressions one after the other.
pub struct Sequence {
    items: Vec<Expression>,
}

/// A parsed pattern.
pub enum Expression {
    Literal(Literal),
    Alternation(Alternation),
    Sequence(Sequence),
}

impl Expression {
    /// The tree that this expression stands for.
    pub closed spec fn syntax(&self) -> Syntax
        decreases self,
    {
        match self {
            Expression::Literal(l) => Syntax::Literal(l.value@),
            Expression::Alternation(a) => Syntax::Alternation(
                Box::new(a.left.syntax()),
                Box::new(a.right.syntax()),
            ),
            Expression::Sequence(s) => Syntax::Sequence(syntax_list(s.items@)),
        }
    }
}

/// The trees of a list of expressions, in order.
pub closed spec fn syntax_list(items: Seq<Expression>) -> Seq<Syntax>
    decreases items,
{
    if items.len() == 0 {
        seq![]
    } else {
        syntax_list(items.drop_last()).push(items.last().syntax())
    }
}

proof fn lemma_syntax_list(items: Seq<Expression>)
    ensures
        syntax_list(items).len() == items.len(),
        forall|i: int|
            0 <= i < items.len() ==> #[trigger] syntax_list(items)[i] == items[i].syntax(),
    decreases items.len(),
{
    if items.len() > 0 {
        lemma_syntax_list(items.drop_last());
    }
}

proof fn lemma_syntax_list_push(items: Seq<Expression>, e: Expression)
    ensures
        syntax_list(items.push(e)) == syntax_list(items).push(e.syntax()),
{
    assert(items.push(e).drop_last() =~= items);
}

impl Expression {
    /// Parses one expression: units up to the end of the input or to a `)`,
    /// which stays unread. Alternation binds the single atoms next to `|`.
    pub fn parse(parser: &mut Parser) -> (r: Result<Self, RegexError>)
        requires
            old(parser).wf(),
        ensures
            final(parser).wf(),
            final(parser).units() == old(parser).units(),
            old(parser).pos() <= final(parser).pos(),
            match r {
                Ok(e) => {
                    &&& parse_expr(old(parser).units(), old(parser).pos()) == Ok::<
                        (Syntax, int),
                        RegexError,
                    >((e.syntax(), final(parser).pos()))
                    &&& well_formed(e.syntax())
                    &&& (final(parser).pos() >= final(parser).units().len() || is_sign(
                        final(parser).units()[final(parser).pos()],
                        CLOSE_PAREN,
                    ))
                },
                Err(x) => parse_expr(old(parser).units(), old(parser).pos()) == Err::<
                    (Syntax, int),
                    RegexError,
                >(x),
            },
        decreases old(parser).units().len() - old(parser).pos(), 2int,
    {
        let ghost s = parser.units();
        let ghost begin = parser.pos();
        let mut items: Vec<Expression> = Vec::new();
        loop
            invariant
                parser.wf(),
                parser.units() == s,
                s == old(parser).units(),
                begin == old(parser).pos(),
                begin <= parser.pos(),
                s.len() - begin >= 0,
                parse_items(s, begin) == prepend_items(
                    syntax_list(items@),
                    parse_items(s, parser.pos()),
                ),
                forall|i: int| 0 <= i < items@.len() ==> well_formed(#[trigger] items@[i].syntax()),
            ensures
                parse_items(s, parser.pos()) == Ok::<(Seq<Syntax>, int), RegexError>(
                    (seq![], parser.pos()),
                ),
                parser.pos() >= s.len() || is_sign(s[parser.pos()], CLOSE_PAREN),
            decreases s.len() - parser.pos(),
        {
            match parser.peek() {
                None => break,
                Some(c) => {
                    if c.is_byte(CLOSE_PAREN) {
                        break;
                    }
                },
            }
            let unit = match Self::parse_unit(parser) {
                Ok(u) => u,
                Err(e) => return Err(e),
            };
            proof {
                lemma_syntax_list_push(items@, unit);
                let rest = parse_items(s, parser.pos());
                match rest {
                    Ok((t, q)) => {
                        assert(syntax_list(items@) + (seq![unit.syntax()] + t)
                            =~= syntax_list(items@).push(unit.syntax()) + t);
                    },
                    Err(_) => {},
                }
            }
            items.push(unit);
        }
        proof {
            lemma_syntax_list(items@);
            lemma_all_well_formed(syntax_list(items@));
            assert(syntax_list(items@) + seq![] =~= syntax_list(items@));
        }
        if items.len() == 0 {
            Err(RegexError::UnexpectedEndOfInput)
        } else if items.len() == 1 {
            let e = items.pop().unwrap();
            proof {
                assert(syntax_list(seq![e]) == seq![e.syntax()]) by {
                    assert(seq![e].drop_last() =~= Seq::<Expression>::empty());
                }
            }
            Ok(e)
        } else {
            let ghost l = syntax_list(items@);
            let e = Expression::Sequence(Sequence { items });
            proof {
                assert(e.syntax() == Syntax::Sequence(l));
            }
            Ok(e)
        }
    }

    /// Parses an atom, and, where a `|` follows it, the unit that forms its
    /// alternative.
    fn parse_unit(parser: &mut Parser) -> (r: Result<Self, RegexError>)
        requires
            old(parser).wf(),
        ensures
            final(parser).wf(),
            final(parser).units() == old(parser).units(),
            old(parser).pos() <= final(parser).pos(),
            match r {
                Ok(e) => {
                    &&& parse_unit_at(old(parser).units(), old(parser).pos()) == Ok::<
                        (Syntax, int),
                        RegexError,
                    >((e.syntax(), final(parser).pos()))
                    &&& old(parser).pos() < final(parser).pos()
                    &&& well_formed(e.syntax())
                },
                Err(x) => parse_unit_at(old(parser).units(), old(parser).pos()) == Err::<
                    (Syntax, int),
                    RegexError,
                >(x),
            },
        decreases old(parser).units().len() - old(parser).pos(), 0int,
    {
        let ghost s = parser.units();
        let ghost begin = parser.pos();
        let is_group = match parser.peek() {
            None => return Err(RegexError::UnexpectedEndOfInput),
            Some(c) => c.is_byte(OPEN_PAREN),
        };
        let left = if is_group {
            parser.consume();
            let expr = match Self::parse(parser) {
                Ok(e) => e,
                Err(e) => return Err(e),
            };
            match parser.consume() {
                None => return Err(RegexError::UnbalancedGroup),
                Some(_) => {},
            }
            expr
        } else {
            let codepoint = parser.consume().unwrap();
            Expression::Literal(Literal { value: codepoint })
        };
        let ghost q = parser.pos();
        assert(begin < q <= s.len());
        if is_group {
            assert(is_sign(s[begin], OPEN_PAREN));
            assert(parse_expr(s, begin + 1) == Ok::<(Syntax, int), RegexError>((left.syntax(), q - 1)));
            assert(is_sign(s[q - 1], CLOSE_PAREN));
        } else {
            assert(!is_sign(s[begin], OPEN_PAREN));
            assert(left.syntax() == Syntax::Literal(s[begin]));
        }
        assert(well_formed(left.syntax()));
        let is_pipe = match parser.peek() {
            None => false,
            Some(c) => c.is_byte(PIPE),
        };
        if is_pipe {
            parser.consume();
            let right = match Self::parse_unit(parser) {
                Ok(u) => u,
                Err(e) => return Err(e),
            };
            let e = Expression::Alternation(
                Alternation { left: Box::new(left), right: Box::new(right) },
            );
            proof {
                assert(e.syntax() == Syntax::Alternation(
                    Box::new(left.syntax()),
                    Box::new(right.syntax()),
                ));
                assert(is_sign(s[q], PIPE));
                assert(parse_unit_at(s, q + 1) == Ok::<(Syntax, int), RegexError>((right.syntax(), parser.pos())));
                assert(parse_unit_at(s, begin) == Ok::<(Syntax, int), RegexError>((e.syntax(), parser.pos())));
                assert(well_formed(e.syntax()));
            }
            Ok(e)
        } else {
            assert(parse_unit_at(s, begin) == Ok::<(Syntax, int), RegexError>((left.syntax(), q)));
            Ok(left)
        }
    }
}

/// Whether `new` is `old` followed by the construction of `s` on fresh states,
/// and `r` is its start and end.
pub open spec fn builds(old: Seq<Vec<Edge>>, new: Seq<Vec<Edge>>, s: Syntax, r: (usize, usize)) -> bool {
    let (rows, st, en) = thompson(s, old.len() as int);
    &&& adj_model(new) == adj_model(old) + rows
    &&& new.len() == old.len() + rows.len()
    &&& r.0 == st
    &&& r.1 == en
}

fn push_state(adjecents: &mut Vec<Vec<Edge>>) -> (r: usize)
    ensures
        r == old(adjecents)@.len(),
        final(adjecents)@.len() == old(adjecents)@.len() + 1,
        adj_model(final(adjecents)@) == adj_model(old(adjecents)@).push(Seq::empty()),
{
    let r = adjecents.len();
    adjecents.push(Vec::new());
    proof {
        assert(row_model(adjecents@[r as int]@) =~= Seq::empty());
        assert(adj_model(adjecents@) =~= adj_model(old(adjecents)@).push(Seq::empty()));
    }
    r
}

fn push_edge(adjecents: &mut Vec<Vec<Edge>>, i: usize, e: Edge)
    requires
        i < old(adjecents)@.len(),
    ensures
        final(adjecents)@.len() == old(adjecents)@.len(),
        adj_model(final(adjecents)@) == add_edge(adj_model(old(adjecents)@), i as int, e@),
{
    let ghost e_model = e@;
    adjecents[i].push(e);
    proof {
        let m = adj_model(adjecents@);
        let n = add_edge(adj_model(old(adjecents)@), i as int, e_model);
        assert forall|j: int| 0 <= j < m.len() implies m[j] =~= n[j] by {
            if j == i {
                assert(m[j] =~= n[j]);
            }
        }
        assert(m =~= n);
    }
}

proof fn lemma_add_edge_shift(m0: Seq<Seq<EdgeModel>>, x: Seq<Seq<EdgeModel>>, i: int, e: EdgeModel)
    requires
        0 <= i < x.len(),
    ensures
        add_edge(m0 + x, m0.len() + i, e) == m0 + add_edge(x, i, e),
{
    assert(add_edge(m0 + x, m0.len() + i, e) =~= m0 + add_edge(x, i, e));
}

impl Literal {
    fn build(&self, adjecents: &mut Vec<Vec<Edge>>) -> (r: (usize, usize))
        ensures
            builds(old(adjecents)@, final(adjecents)@, Syntax::Literal(self.value@), r),
    {
        let ghost m0 = adj_model(adjecents@);
        let start = push_state(adjecents);
        let end = push_state(adjecents);
        let edge = Edge { to: end, kind: EdgeType::Regular(self.value.duplicate()) };
        push_edge(adjecents, start, edge);
        proof {
            let (rows, st, en) = thompson(Syntax::Literal(self.value@), start as int);
            lemma_add_edge_shift(m0, seq![Seq::empty(), Seq::empty()], 0, edge@);
            assert(m0.push(Seq::empty()).push(Seq::empty()) =~= m0 + seq![Seq::empty(), Seq::empty()]);
            assert(add_edge(seq![Seq::empty(), Seq::empty()], 0, edge@) =~= rows);
        }
        (start, end)
    }
}

impl Alternation {
    pub closed spec fn syntax(&self) -> Syntax {
        Syntax::Alternation(Box::new(self.left.syntax()), Box::new(self.right.syntax()))
    }

    fn build(&self, adjecents: &mut Vec<Vec<Edge>>) -> (r: (usize, usize))
        requires
            well_formed(self.syntax()),
        ensures
            builds(old(adjecents)@, final(adjecents)@, self.syntax(), r),
        decreases self,
    {
        let ghost m0 = adj_model(adjecents@);
        let ghost base = adjecents@.len() as int;
        proof {
            lemma_thompson(self.left.syntax(), base + 1);
            lemma_thompson(
                self.right.syntax(),
                base + 1 + state_count(self.left.syntax()),
            );
        }
        let start = push_state(adjecents);
        let (left_start, left_end) = self.left.build(adjecents);
        let ghost m1 = adj_model(adjecents@);
        let (right_start, right_end) = self.right.build(adjecents);
        let ghost m2 = adj_model(adjecents@);
        let end = push_state(adjecents);
        let ghost m3 = adj_model(adjecents@);

        let ghost lrows = thompson(self.left.syntax(), base + 1).0;
        let ghost rrows = thompson(self.right.syntax(), base + 1 + lrows.len()).0;
        let ghost x0 = seq![Seq::<EdgeModel>::empty()] + lrows + rrows + seq![Seq::empty()];
        proof {
            assert(m3 =~= m0 + x0);
        }

        push_edge(adjecents, start, Edge { to: left_start, kind: EdgeType::Epsilon });
        proof {
            lemma_add_edge_shift(m0, x0, 0, eps(left_start as int));
        }
        let ghost x1 = add_edge(x0, 0, eps(left_start as int));
        push_edge(adjecents, start, Edge { to: right_start, kind: EdgeType::Epsilon });
        proof {
            lemma_add_edge_shift(m0, x1, 0, eps(right_start as int));
        }
        let ghost x2 = add_edge(x1, 0, eps(right_start as int));
        push_edge(adjecents, left_end, Edge { to: end, kind: EdgeType::Epsilon });
        proof {
            lemma_add_edge_shift(m0, x2, left_end - base, eps(end as int));
        }
        let ghost x3 = add_edge(x2, left_end - base, eps(end as int));
        push_edge(adjecents, right_end, Edge { to: end, kind: EdgeType::Epsilon });
        proof {
            lemma_add_edge_shift(m0, x3, right_end - base, eps(end as int));
            let x4 = add_edge(x3, right_end - base, eps(end as int));
            let rows0 = seq![seq![eps(left_start as int), eps(right_start as int)]] + lrows + rrows
                + seq![Seq::empty()];
            assert(x2[0] =~= rows0[0]);
            assert(x2 =~= rows0);
            assert(adj_model(adjecents@) == m0 + x4);
        }
        (start, end)
    }
}

impl Sequence {
    pub closed spec fn syntax(&self) -> Syntax {
        Syntax::Sequence(syntax_list(self.items@))
    }

    fn build(&self, adjecents: &mut Vec<Vec<Edge>>) -> (r: (usize, usize))
        requires
            well_formed(self.syntax()),
        ensures
            builds(old(adjecents)@, final(adjecents)@, self.syntax(), r),
        decreases self,
    {
        let ghost m0 = adj_model(adjecents@);
        let ghost base = adjecents@.len() as int;
        let ghost items = syntax_list(self.items@);
        proof {
            assert(self.syntax() == Syntax::Sequence(items));
            lemma_syntax_list(self.items@);
            lemma_all_well_formed(items);
            lemma_thompson_seq(items, 1, base);
            lemma_thompson(items[0], base);
        }
        let (first_start, mut prev_end) = self.items[0].build(adjecents);
        let mut i: usize = 1;
        while i < self.items.len()
            invariant
                1 <= i <= self.items@.len(),
                items == syntax_list(self.items@),
                items.len() == self.items@.len(),
                forall|j: int| 0 <= j < items.len() ==> #[trigger] items[j] == self.items@[j].syntax(),
                forall|j: int| 0 <= j < items.len() ==> #[trigger] well_formed(items[j]),
                base == old(adjecents)@.len(),
                m0 == adj_model(old(adjecents)@),
                ({
                    let (rows, st, en) = thompson_seq(items, i as int, base);
                    &&& adj_model(adjecents@) == m0 + rows
                    &&& adjecents@.len() == base + rows.len()
                    &&& first_start == st
                    &&& prev_end == en
                }),
            decreases self.items@.len() - i,
        {
            proof {
                lemma_thompson_seq(items, i as int, base);
                assert(items.subrange(0, i + 1).drop_last() =~= items.subrange(0, i as int));
                assert(items.subrange(0, i + 1).last() == items[i as int]);
                lemma_thompson(items[i as int], base + thompson_seq(items, i as int, base).0.len());
            }
            let ghost rows = thompson_seq(items, i as int, base).0;
            let (start, end) = self.items[i].build(adjecents);
            proof {
                lemma_thompson(items[i as int], base + rows.len());
            }
            let ghost rows2 = thompson(items[i as int], base + rows.len()).0;
            push_edge(adjecents, prev_end, Edge { to: start, kind: EdgeType::Epsilon });
            proof {
                assert(m0 + rows + rows2 =~= m0 + (rows + rows2));
                lemma_add_edge_shift(m0, rows + rows2, prev_end - base, eps(start as int));
                assert(add_edge(rows + rows2, prev_end - base, eps(start as int))
                    =~= add_edge(rows, prev_end - base, eps(start as int)) + rows2);
            }
            prev_end = end;
            i = i + 1;
        }
        proof {
            assert(self.syntax() == Syntax::Sequence(items));
        }
        (first_start, prev_end)
    }
}

impl Expression {
    fn build(&self, adjecents: &mut Vec<Vec<Edge>>) -> (r: (usize, usize))
        requires
            well_formed(self.syntax()),
        ensures
            builds(old(adjecents)@, final(adjecents)@, self.syntax(), r),
        decreases self,
    {
        match self {
            Expression::Literal(l) => l.build(adjecents),
            Expression::Alternation(a) => a.build(adjecents),
            Expression::Sequence(s) => s.build(adjecents),
        }
    }

    /// The automaton of this expression by Thompson's construction: states are
    /// numbered from 0, the start is the start of the whole expression and the
    /// one accepting state is its end.
    pub fn nfa(&self) -> (r: NFA)
        requires
            well_formed(self.syntax()),
        ensures
            r.wf(),
            ({
                let (rows, st, en) = thompson(self.syntax(), 0);
                &&& r.adj() == rows
                &&& r.start == st
                &&& r.accepting@ == set![en as usize]
            }),
    {
        let mut adjecents: Vec<Vec<Edge>> = Vec::new();
        let (start, end) = self.build(&mut adjecents);
        // a length is a `usize`, so every state fits one
        let count = adjecents.len();
        proof {
            assert(count == adjecents@.len());
            lemma_thompson(self.syntax(), 0);
            assert(adj_model(adjecents@) =~= thompson(self.syntax(), 0).0);
        }
        let mut accepting: HashSet<usize> = HashSet::new();
        accepting.insert(end);
        proof {
            assert(accepting@ =~= set![end]);
        }
        NFA { adjecents, start, accepting }
    }
}

} // verus!
