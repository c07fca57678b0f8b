//! Regular expressions as trees, read off an automaton by state elimination,
//! and written out as text.

use crate::dfa::{rows, forward, lang, lemma_lang_first, lemma_next, next, reach, targets_inside, unique_symbols, Dfa};
use crate::repetition::symbol_views;
use crate::text::Symbol;
use vstd::prelude::*;

verus! {

/// A regular expression over symbol numbers. `Empty` matches the empty word,
/// `Opt` is the repetition `{0,1}` and `Star` the repetition `{0,}`.
#[derive(Debug)]
pub enum Expr {
    Empty,
    Lit(usize),
    Cat(Box<Expr>, Box<Expr>),
    Alt(Box<Expr>, Box<Expr>),
    Opt(Box<Expr>),
    Star(Box<Expr>),
}

/// The shape that the constructors below keep: `Empty` stands alone, never
/// inside another node; an alternation has two non-empty branches; a
/// repetition never wraps a `{0,1}` repetition; and each symbol is known.
pub open spec fn wf_expr(e: Expr, num_symbols: nat) -> bool
    decreases e,
{
    match e {
        Expr::Empty => true,
        Expr::Lit(a) => a < num_symbols,
        Expr::Cat(x, y) => !(*x is Empty) && !(*y is Empty) && wf_expr(*x, num_symbols) && wf_expr(
            *y,
            num_symbols,
        ),
        Expr::Alt(x, y) => !(*x is Empty) && !(*y is Empty) && wf_expr(*x, num_symbols) && wf_expr(
            *y,
            num_symbols,
        ),
        Expr::Opt(x) => !(*x is Empty) && !(*x is Opt) && wf_expr(*x, num_symbols),
        Expr::Star(x) => !(*x is Empty) && wf_expr(*x, num_symbols),
    }
}

pub open spec fn cat_spec(x: Expr, y: Expr) -> Expr {
    if x is Empty {
        y
    } else if y is Empty {
        x
    } else {
        Expr::Cat(Box::new(x), Box::new(y))
    }
}

pub open spec fn opt_spec(x: Expr) -> Expr {
    if x is Empty || x is Opt {
        x
    } else {
        Expr::Opt(Box::new(x))
    }
}

pub open spec fn star_spec(x: Expr) -> Expr {
    if x is Empty {
        x
    } else if x is Opt {
        Expr::Star(x->Opt_0)
    } else {
        Expr::Star(Box::new(x))
    }
}

/// The alternation of two expressions; an empty branch makes the other
/// optional.
pub open spec fn union_spec(x: Expr, y: Expr) -> Expr {
    if x is Empty {
        opt_spec(y)
    } else if y is Empty {
        opt_spec(x)
    } else {
        Expr::Alt(Box::new(x), Box::new(y))
    }
}

/// Whether the expression matches the word of symbol numbers.
pub open spec fn expr_matches(e: Expr, w: Seq<usize>) -> bool
    decreases e, w.len(),
{
    match e {
        Expr::Empty => w.len() == 0,
        Expr::Lit(a) => w == seq![a],
        Expr::Cat(x, y) => exists|j: int|
            0 <= j <= w.len() && expr_matches(*x, w.subrange(0, j)) && expr_matches(*y, w.subrange(j, w.len() as int)),
        Expr::Alt(x, y) => expr_matches(*x, w) || expr_matches(*y, w),
        Expr::Opt(x) => w.len() == 0 || expr_matches(*x, w),
        Expr::Star(x) => w.len() == 0 || exists|j: int|
            0 < j <= w.len() && expr_matches(*x, w.subrange(0, j)) && expr_matches(
                Expr::Star(x),
                w.subrange(j, w.len() as int),
            ),
    }
}

/// `w` splits into a word of `x` followed by a word of `y`.
pub open spec fn cat_matches(x: Expr, y: Expr, w: Seq<usize>) -> bool {
    exists|j: int| 0 <= j <= w.len() && expr_matches(x, w.subrange(0, j)) && expr_matches(y, w.subrange(j, w.len() as int))
}

/// What the concatenation constructor builds matches exactly the words that
/// split into a word of `x` and a word of `y`.
pub proof fn lemma_cat_matches(x: Expr, y: Expr, w: Seq<usize>)
    ensures
        expr_matches(cat_spec(x, y), w) == cat_matches(x, y, w),
{
    if x is Empty {
        if expr_matches(y, w) {
            assert(w.subrange(0, 0) =~= Seq::<usize>::empty());
            assert(w.subrange(0, w.len() as int) =~= w);
        }
        if cat_matches(x, y, w) {
            let j = choose|j: int| 0 <= j <= w.len() && expr_matches(x, w.subrange(0, j)) && expr_matches(y, w.subrange(j, w.len() as int));
            assert(j == 0);
            assert(w.subrange(0, w.len() as int) =~= w);
        }
    } else if y is Empty {
        if expr_matches(x, w) {
            assert(w.subrange(w.len() as int, w.len() as int) =~= Seq::<usize>::empty());
            assert(w.subrange(0, w.len() as int) =~= w);
        }
        if cat_matches(x, y, w) {
            let j = choose|j: int| 0 <= j <= w.len() && expr_matches(x, w.subrange(0, j)) && expr_matches(y, w.subrange(j, w.len() as int));
            assert(j == w.len());
            assert(w.subrange(0, w.len() as int) =~= w);
        }
    }
}

/// Every expression matches some word.
pub proof fn lemma_matches_some(e: Expr)
    ensures
        exists|w: Seq<usize>| expr_matches(e, w),
    decreases e,
{
    match e {
        Expr::Empty => {
            assert(expr_matches(e, Seq::<usize>::empty()));
        },
        Expr::Lit(a) => {
            assert(expr_matches(e, seq![a]));
        },
        Expr::Cat(x, y) => {
            lemma_matches_some(*x);
            lemma_matches_some(*y);
            let wx = choose|w: Seq<usize>| expr_matches(*x, w);
            let wy = choose|w: Seq<usize>| expr_matches(*y, w);
            let w = wx + wy;
            assert(w.subrange(0, wx.len() as int) =~= wx);
            assert(w.subrange(wx.len() as int, w.len() as int) =~= wy);
            assert(expr_matches(e, w));
        },
        Expr::Alt(x, y) => {
            lemma_matches_some(*x);
            let wx = choose|w: Seq<usize>| expr_matches(*x, w);
            assert(expr_matches(e, wx));
        },
        Expr::Opt(_) => {
            assert(expr_matches(e, Seq::<usize>::empty()));
        },
        Expr::Star(_) => {
            assert(expr_matches(e, Seq::<usize>::empty()));
        },
    }
}

/// What the alternation constructor builds matches exactly the words of `x`
/// and the words of `y`.
pub proof fn lemma_union_matches(x: Expr, y: Expr, w: Seq<usize>)
    ensures
        expr_matches(union_spec(x, y), w) == (expr_matches(x, w) || expr_matches(y, w)),
{
}

pub fn dup(e: &Expr) -> (r: Expr)
    ensures
        r == *e,
    decreases e,
{
    match e {
        Expr::Empty => Expr::Empty,
        Expr::Lit(a) => Expr::Lit(*a),
        Expr::Cat(x, y) => Expr::Cat(Box::new(dup(x)), Box::new(dup(y))),
        Expr::Alt(x, y) => Expr::Alt(Box::new(dup(x)), Box::new(dup(y))),
        Expr::Opt(x) => Expr::Opt(Box::new(dup(x))),
        Expr::Star(x) => Expr::Star(Box::new(dup(x))),
    }
}

pub fn cat(x: Expr, y: Expr) -> (r: Expr)
    ensures
        r == cat_spec(x, y),
{
    if let Expr::Empty = x {
        y
    } else if let Expr::Empty = y {
        x
    } else {
        Expr::Cat(Box::new(x), Box::new(y))
    }
}

pub fn opt(x: Expr) -> (r: Expr)
    ensures
        r == opt_spec(x),
{
    match x {
        Expr::Empty => x,
        Expr::Opt(_) => x,
        _ => Expr::Opt(Box::new(x)),
    }
}

pub fn star(x: Expr) -> (r: Expr)
    ensures
        r == star_spec(x),
{
    match x {
        Expr::Empty => Expr::Empty,
        Expr::Opt(inner) => Expr::Star(inner),
        _ => Expr::Star(Box::new(x)),
    }
}

pub fn union(x: Expr, y: Expr) -> (r: Expr)
    ensures
        r == union_spec(x, y),
{
    if let Expr::Empty = x {
        opt(y)
    } else if let Expr::Empty = y {
        opt(x)
    } else {
        Expr::Alt(Box::new(x), Box::new(y))
    }
}

pub proof fn lemma_constructors_wf(x: Expr, y: Expr, n: nat)
    requires
        wf_expr(x, n),
        wf_expr(y, n),
    ensures
        wf_expr(cat_spec(x, y), n),
        wf_expr(union_spec(x, y), n),
        wf_expr(opt_spec(x), n),
        wf_expr(star_spec(x), n),
{
}

/// Whether a quantifier may follow the text of `e` without parentheses.
pub open spec fn quantifiable(e: Expr, syms: Seq<(Seq<char>, bool)>) -> bool {
    match e {
        Expr::Lit(a) => a < syms.len() && syms[a as int].1,
        _ => false,
    }
}

/// The text of an expression: alternations are put in parentheses inside a
/// concatenation, and the operand of a repetition is put in parentheses
/// unless it is a single quantifiable symbol.
pub open spec fn render(e: Expr, syms: Seq<(Seq<char>, bool)>) -> Seq<char>
    decreases e,
{
    match e {
        Expr::Empty => Seq::empty(),
        Expr::Lit(a) => syms[a as int].0,
        Expr::Cat(x, y) => {
            let left = if *x is Alt {
                seq!['('] + render(*x, syms) + seq![')']
            } else {
                render(*x, syms)
            };
            let right = if *y is Alt {
                seq!['('] + render(*y, syms) + seq![')']
            } else {
                render(*y, syms)
            };
            left + right
        },
        Expr::Alt(x, y) => render(*x, syms) + seq!['|'] + render(*y, syms),
        Expr::Opt(x) => if quantifiable(*x, syms) {
            render(*x, syms) + seq!['?']
        } else {
            seq!['('] + render(*x, syms) + seq![')', '?']
        },
        Expr::Star(x) => if quantifiable(*x, syms) {
            render(*x, syms) + seq!['*']
        } else {
            seq!['('] + render(*x, syms) + seq![')', '*']
        },
    }
}

/// The whole pattern: the text between anchors, an alternation at the top in
/// parentheses so that both anchors bind to all of it.
pub open spec fn anchored(e: Expr, syms: Seq<(Seq<char>, bool)>) -> Seq<char> {
    if e is Alt {
        seq!['^', '('] + render(e, syms) + seq![')', '$']
    } else {
        seq!['^'] + render(e, syms) + seq!['$']
    }
}

fn push_all(out: &mut Vec<char>, s: &Vec<char>)
    ensures
        final(out)@ == old(out)@ + s@,
{
    let mut i: usize = 0;
    while i < s.len()
        invariant
            i <= s@.len(),
            out@ == old(out)@ + s@.subrange(0, i as int),
        decreases s@.len() - i,
    {
        out.push(s[i]);
        i = i + 1;
        assert(out@ =~= old(out)@ + s@.subrange(0, i as int));
    }
    assert(s@.subrange(0, s@.len() as int) =~= s@);
}

fn is_quantifiable(e: &Expr, syms: &Vec<Symbol>) -> (b: bool)
    ensures
        b == quantifiable(*e, symbol_views(syms@)),
{
    match e {
        Expr::Lit(a) => *a < syms.len() && syms[*a].single,
        _ => false,
    }
}

/// Writes the text of `e` after `out`.
pub fn render_into(out: &mut Vec<char>, e: &Expr, syms: &Vec<Symbol>)
    requires
        wf_expr(*e, syms@.len() as nat),
    ensures
        final(out)@ == old(out)@ + render(*e, symbol_views(syms@)),
    decreases e,
{
    let ghost v = symbol_views(syms@);
    match e {
        Expr::Empty => {
            assert(out@ =~= old(out)@ + render(*e, v));
        },
        Expr::Lit(a) => {
            push_all(out, &syms[*a].text);
        },
        Expr::Cat(x, y) => {
            let xa = matches!(**x, Expr::Alt(_, _));
            if xa {
                out.push('(');
            }
            render_into(out, x, syms);
            if xa {
                out.push(')');
            }
            let ya = matches!(**y, Expr::Alt(_, _));
            if ya {
                out.push('(');
            }
            render_into(out, y, syms);
            if ya {
                out.push(')');
            }
            assert(out@ =~= old(out)@ + render(*e, v));
        },
        Expr::Alt(x, y) => {
            render_into(out, x, syms);
            out.push('|');
            render_into(out, y, syms);
            assert(out@ =~= old(out)@ + render(*e, v));
        },
        Expr::Opt(x) => {
            let q = is_quantifiable(x, syms);
            if !q {
                out.push('(');
            }
            render_into(out, x, syms);
            if !q {
                out.push(')');
            }
            out.push('?');
            assert(out@ =~= old(out)@ + render(*e, v));
        },
        Expr::Star(x) => {
            let q = is_quantifiable(x, syms);
            if !q {
                out.push('(');
            }
            render_into(out, x, syms);
            if !q {
                out.push(')');
            }
            out.push('*');
            assert(out@ =~= old(out)@ + render(*e, v));
        },
    }
}

/// The anchored text of `e`.
pub fn render_anchored(e: &Expr, syms: &Vec<Symbol>) -> (r: Vec<char>)
    requires
        wf_expr(*e, syms@.len() as nat),
    ensures
        r@ == anchored(*e, symbol_views(syms@)),
{
    let mut out: Vec<char> = Vec::new();
    let alt = matches!(*e, Expr::Alt(_, _));
    out.push('^');
    if alt {
        out.push('(');
    }
    render_into(&mut out, e, syms);
    if alt {
        out.push(')');
    }
    out.push('$');
    assert(out@ =~= anchored(*e, symbol_views(syms@)));
    out
}

/// Every entry of the table is a well-formed expression.
pub open spec fn table_wf(t: Seq<Vec<Option<Expr>>>, rows: nat, cols: nat, ns: nat) -> bool {
    &&& t.len() == rows
    &&& forall|p: int| 0 <= p < rows ==> (#[trigger] t[p])@.len() == cols
    &&& forall|p: int, q: int|
        0 <= p < rows && 0 <= q < cols && (#[trigger] t[p]@[q]) is Some ==> wf_expr(
            t[p]@[q]->Some_0,
            ns,
        )
}

fn table(rows: usize, cols: usize, ns: Ghost<nat>) -> (t: Vec<Vec<Option<Expr>>>)
    ensures
        table_wf(t@, rows as nat, cols as nat, ns@),
        forall|p: int, q: int| 0 <= p < rows && 0 <= q < cols ==> (#[trigger] t@[p]@[q]) is None,
{
    let mut t: Vec<Vec<Option<Expr>>> = Vec::new();
    while t.len() < rows
        invariant
            t@.len() <= rows,
            forall|p: int| 0 <= p < t@.len() ==> (#[trigger] t@[p])@.len() == cols,
            forall|p: int, q: int|
                0 <= p < t@.len() && 0 <= q < cols ==> (#[trigger] t@[p]@[q]) is None,
        decreases rows - t@.len(),
    {
        let mut row: Vec<Option<Expr>> = Vec::new();
        while row.len() < cols
            invariant
                row@.len() <= cols,
                forall|q: int| 0 <= q < row@.len() ==> (#[trigger] row@[q]) is None,
            decreases cols - row@.len(),
        {
            row.push(None);
        }
        t.push(row);
    }
    t
}

fn entry(t: &Vec<Vec<Option<Expr>>>, p: usize, q: usize, rows: Ghost<nat>, cols: Ghost<nat>, ns: Ghost<nat>) -> (r: Option<Expr>)
    requires
        table_wf(t@, rows@, cols@, ns@),
        p < rows@,
        q < cols@,
    ensures
        r == t@[p as int]@[q as int],
        r is Some ==> wf_expr(r->Some_0, ns@),
{
    match &t[p][q] {
        Some(x) => Some(dup(x)),
        None => None,
    }
}

/// What an entry holds after one more way `x` is added to it.
pub open spec fn merge(o: Option<Expr>, x: Expr) -> Expr {
    match o {
        Some(c) => union_spec(c, x),
        None => x,
    }
}

/// Adds `x` as one more way from `p` to `q`.
fn add_path(t: &mut Vec<Vec<Option<Expr>>>, p: usize, q: usize, x: Expr, rows: Ghost<nat>, cols: Ghost<nat>, ns: Ghost<nat>)
    requires
        table_wf(old(t)@, rows@, cols@, ns@),
        p < rows@,
        q < cols@,
        wf_expr(x, ns@),
    ensures
        table_wf(final(t)@, rows@, cols@, ns@),
        final(t)@[p as int]@[q as int] == Some(merge(old(t)@[p as int]@[q as int], x)),
        forall|a: int, b: int|
            0 <= a < rows@ && 0 <= b < cols@ && (a != p || b != q) ==> #[trigger] final(t)@[a]@[b] == old(t)@[a]@[b],
{
    let cur = entry(t, p, q, rows, cols, ns);
    let merged = match cur {
        Some(c) => {
            proof {
                lemma_constructors_wf(c, x, ns@);
            }
            union(c, x)
        },
        None => x,
    };
    set_entry(t, p, q, Some(merged), rows, cols, ns);
}

fn set_entry(t: &mut Vec<Vec<Option<Expr>>>, p: usize, q: usize, x: Option<Expr>, rows: Ghost<nat>, cols: Ghost<nat>, ns: Ghost<nat>)
    requires
        table_wf(old(t)@, rows@, cols@, ns@),
        p < rows@,
        q < cols@,
        x is Some ==> wf_expr(x->Some_0, ns@),
    ensures
        table_wf(final(t)@, rows@, cols@, ns@),
        final(t)@[p as int]@[q as int] == x,
        forall|a: int, b: int|
            0 <= a < rows@ && 0 <= b < cols@ && (a != p || b != q) ==> #[trigger] final(t)@[a]@[b] == old(t)@[a]@[b],
{
    let ghost before = t@;
    t[p].set(q, x);
    proof {
        assert forall|a: int, b: int|
            0 <= a < rows@ && 0 <= b < cols@ && (#[trigger] t@[a]@[b]) is Some implies wf_expr(
            t@[a]@[b]->Some_0,
            ns@,
        ) by {
            if a != p || b != q {
                assert(t@[a]@[b] == before[a]@[b]);
            }
        }
    }
}

pub open spec fn opt_matches(x: Option<Expr>, w: Seq<usize>) -> bool {
    match x {
        Some(e) => expr_matches(e, w),
        None => false,
    }
}

/// `w` splits into a word of the entry `x` followed by a word that `q`
/// accepts.
pub open spec fn conc(x: Option<Expr>, edges: Seq<Vec<(usize, usize)>>, acc: Seq<bool>, q: usize, w: Seq<usize>) -> bool {
    exists|j: int|
        0 <= j <= w.len() && opt_matches(x, w.subrange(0, j)) && lang(edges, acc, q, w.subrange(j, w.len() as int))
}

/// While states at and beyond `bound` are eliminated: `p` accepts `w` exactly
/// when its way to the final state matches `w`, or its way to a remaining
/// state `q` matches a first part and `q` accepts the rest.
pub open spec fn row_ok(
    edges: Seq<Vec<(usize, usize)>>,
    acc: Seq<bool>,
    t: Seq<Vec<Option<Expr>>>,
    f: Seq<Vec<Option<Expr>>>,
    bound: int,
    p: usize,
    w: Seq<usize>,
) -> bool {
    lang(edges, acc, p, w) == (opt_matches(f[p as int]@[0], w) || exists|q: int|
        p < q < bound && #[trigger] conc(t[p as int]@[q], edges, acc, q as usize, w))
}

/// The same for the added initial state, whose only way at first is the
/// empty word into the start.
pub open spec fn start_ok(
    edges: Seq<Vec<(usize, usize)>>,
    acc: Seq<bool>,
    s: usize,
    g: Seq<Option<Expr>>,
    fi: Option<Expr>,
    bound: int,
    w: Seq<usize>,
) -> bool {
    lang(edges, acc, s, w) == (opt_matches(fi, w) || exists|q: int|
        0 <= q < bound && #[trigger] conc(g[q], edges, acc, q as usize, w))
}

/// Every entry leads forward, to a state not yet eliminated.
pub open spec fn shape(t: Seq<Vec<Option<Expr>>>, g: Seq<Option<Expr>>, n: int, bound: int) -> bool {
    &&& forall|p: int, q: int| 0 <= p < n && 0 <= q < n && (#[trigger] t[p]@[q]) is Some ==> p < q < bound
    &&& forall|q: int| 0 <= q < n && (#[trigger] g[q]) is Some ==> q < bound
}

proof fn lemma_initial_row(
    edges: Seq<Vec<(usize, usize)>>,
    acc: Seq<bool>,
    t: Seq<Vec<Option<Expr>>>,
    f: Seq<Vec<Option<Expr>>>,
    p: usize,
    w: Seq<usize>,
)
    requires
        p < edges.len(),
        acc.len() == edges.len(),
        t.len() == edges.len(),
        f.len() == edges.len(),
        forall|r: int| 0 <= r < edges.len() ==> (#[trigger] t[r])@.len() == edges.len(),
        forall|r: int| 0 <= r < edges.len() ==> (#[trigger] f[r])@.len() == 1,
        forward(edges),
        targets_inside(edges),
        unique_symbols(edges[p as int]@),
        f[p as int]@[0] == (if acc[p as int] { Some(Expr::Empty) } else { None }),
        forall|q: int, u: Seq<usize>|
            0 <= q < edges.len() ==> #[trigger] opt_matches(t[p as int]@[q], u) == exists|i: int|
                0 <= i < edges[p as int]@.len() && u == seq![edges[p as int]@[i].0] && #[trigger] edges[p as int]@[i].1
                    == q,
    ensures
        row_ok(edges, acc, t, f, edges.len() as int, p, w),
{
    let row = edges[p as int]@;
    let n = edges.len() as int;
    if w.len() == 0 {
        assert forall|q: int| p < q < n implies !#[trigger] conc(t[p as int]@[q], edges, acc, q as usize, w) by {
            if conc(t[p as int]@[q], edges, acc, q as usize, w) {
                let j = choose|j: int|
                    0 <= j <= w.len() && opt_matches(t[p as int]@[q], w.subrange(0, j)) && lang(edges, acc, q as usize, w.subrange(j, w.len() as int));
                assert(opt_matches(t[p as int]@[q], w.subrange(0, j)));
                let i = choose|i: int|
                    0 <= i < row.len() && w.subrange(0, j) == seq![row[i].0] && #[trigger] row[i].1 == q;
                assert(w.subrange(0, j).len() == 0);
            }
        }
        assert(reach(edges, p, w) == Some(p));
        assert(lang(edges, acc, p, w) == acc[p as int]);
        assert(opt_matches(f[p as int]@[0], w) == acc[p as int]);
    } else {
        let a = w[0];
        let rest = w.drop_first();
        lemma_lang_first(edges, acc, p, w);
        lemma_next(row, a);
        assert(w.subrange(0, 1) =~= seq![a]);
        assert(w.subrange(1, w.len() as int) =~= rest);
        if exists|i: int| 0 <= i < row.len() && (#[trigger] row[i]).0 == a {
            let i = choose|i: int| 0 <= i < row.len() && (#[trigger] row[i]).0 == a;
            let q = row[i].1;
            assert(q > p && q < n);
            assert(next(row, a) == Some(q));
            if lang(edges, acc, q, rest) {
                assert(opt_matches(t[p as int]@[q as int], w.subrange(0, 1)));
                assert(lang(edges, acc, q, w.subrange(1, w.len() as int)));
                assert(conc(t[p as int]@[q as int], edges, acc, q, w));
                let qi = q as int;
                assert(p < qi < n && conc(t[p as int]@[qi], edges, acc, qi as usize, w));
            }
        }
        assert forall|q: int| p < q < n && #[trigger] conc(t[p as int]@[q], edges, acc, q as usize, w) implies lang(edges, acc, p, w) by {
            let j = choose|j: int|
                0 <= j <= w.len() && opt_matches(t[p as int]@[q], w.subrange(0, j)) && lang(edges, acc, q as usize, w.subrange(j, w.len() as int));
            let i = choose|i: int|
                0 <= i < row.len() && w.subrange(0, j) == seq![row[i].0] && #[trigger] row[i].1 == q;
            assert(w.subrange(0, j).len() == 1);
            assert(j == 1);
            assert(row[i].0 == w.subrange(0, j)[0]);
            assert(row[i].0 == a);
            assert(next(row, a) == Some(row[i].1));
        }
        assert(!opt_matches(f[p as int]@[0], w));
    }
}

proof fn lemma_conc_cat(
    edges: Seq<Vec<(usize, usize)>>,
    acc: Seq<bool>,
    into: Expr,
    out: Option<Expr>,
    k: usize,
    w: Seq<usize>,
)
    requires
        forall|v: Seq<usize>| #[trigger] lang(edges, acc, k, v) == opt_matches(out, v),
    ensures
        conc(Some(into), edges, acc, k, w) == match out {
            Some(o) => expr_matches(cat_spec(into, o), w),
            None => false,
        },
{
    match out {
        Some(o) => {
            lemma_cat_matches(into, o, w);
            if conc(Some(into), edges, acc, k, w) {
                let j = choose|j: int|
                    0 <= j <= w.len() && opt_matches(Some(into), w.subrange(0, j)) && lang(edges, acc, k, w.subrange(j, w.len() as int));
                assert(expr_matches(o, w.subrange(j, w.len() as int)));
            }
            if cat_matches(into, o, w) {
                let j = choose|j: int|
                    0 <= j <= w.len() && expr_matches(into, w.subrange(0, j)) && expr_matches(o, w.subrange(j, w.len() as int));
                assert(lang(edges, acc, k, w.subrange(j, w.len() as int)));
            }
        },
        None => {
            if conc(Some(into), edges, acc, k, w) {
                let j = choose|j: int|
                    0 <= j <= w.len() && opt_matches(Some(into), w.subrange(0, j)) && lang(edges, acc, k, w.subrange(j, w.len() as int));
                assert(lang(edges, acc, k, w.subrange(j, w.len() as int)));
            }
        },
    }
}

/// The new way to the final state after `k` is eliminated.
pub open spec fn stepped(old: Option<Expr>, into: Option<Expr>, out: Option<Expr>) -> Option<Expr> {
    match (into, out) {
        (Some(i), Some(o)) => Some(merge(old, cat_spec(i, o))),
        _ => old,
    }
}

proof fn lemma_step_row(
    edges: Seq<Vec<(usize, usize)>>,
    acc: Seq<bool>,
    t: Seq<Vec<Option<Expr>>>,
    f0: Seq<Vec<Option<Expr>>>,
    f1: Seq<Vec<Option<Expr>>>,
    k: usize,
    p: usize,
    w: Seq<usize>,
)
    requires
        p < k,
        row_ok(edges, acc, t, f0, k + 1, p, w),
        forall|v: Seq<usize>| #[trigger] lang(edges, acc, k, v) == opt_matches(f0[k as int]@[0], v),
        f1[p as int]@[0] == stepped(f0[p as int]@[0], t[p as int]@[k as int], f0[k as int]@[0]),
    ensures
        row_ok(edges, acc, t, f1, k as int, p, w),
{
    let into = t[p as int]@[k as int];
    let out = f0[k as int]@[0];
    let old = f0[p as int]@[0];
    let through = conc(into, edges, acc, k, w);
    let earlier = exists|q: int| p < q < k && #[trigger] conc(t[p as int]@[q], edges, acc, q as usize, w);
    let all = exists|q: int| p < q < k + 1 && #[trigger] conc(t[p as int]@[q], edges, acc, q as usize, w);
    if all {
        let q = choose|q: int| p < q < k + 1 && #[trigger] conc(t[p as int]@[q], edges, acc, q as usize, w);
        if q < k {
            assert(earlier);
        } else {
            assert(q == k);
            assert(through);
        }
    }
    if earlier {
        let q = choose|q: int| p < q < k && #[trigger] conc(t[p as int]@[q], edges, acc, q as usize, w);
        assert(p < q < k + 1);
    }
    if through {
        assert(conc(t[p as int]@[k as int], edges, acc, (k as int) as usize, w));
    }
    assert(all == (through || earlier));
    match into {
        Some(i) => {
            lemma_conc_cat(edges, acc, i, out, k, w);
            match out {
                Some(o) => {
                    match old {
                        Some(c) => {
                            lemma_union_matches(c, cat_spec(i, o), w);
                        },
                        None => {},
                    }
                },
                None => {},
            }
        },
        None => {
            if through {
                let j = choose|j: int|
                    0 <= j <= w.len() && opt_matches(into, w.subrange(0, j)) && lang(edges, acc, k, w.subrange(j, w.len() as int));
            }
        },
    }
}

proof fn lemma_step_start(
    edges: Seq<Vec<(usize, usize)>>,
    acc: Seq<bool>,
    s: usize,
    g: Seq<Option<Expr>>,
    f0: Seq<Vec<Option<Expr>>>,
    fi0: Option<Expr>,
    fi1: Option<Expr>,
    k: usize,
    w: Seq<usize>,
)
    requires
        start_ok(edges, acc, s, g, fi0, k + 1, w),
        forall|v: Seq<usize>| #[trigger] lang(edges, acc, k, v) == opt_matches(f0[k as int]@[0], v),
        fi1 == stepped(fi0, g[k as int], f0[k as int]@[0]),
    ensures
        start_ok(edges, acc, s, g, fi1, k as int, w),
{
    let into = g[k as int];
    let out = f0[k as int]@[0];
    let through = conc(into, edges, acc, k, w);
    let earlier = exists|q: int| 0 <= q < k && #[trigger] conc(g[q], edges, acc, q as usize, w);
    let all = exists|q: int| 0 <= q < k + 1 && #[trigger] conc(g[q], edges, acc, q as usize, w);
    if all {
        let q = choose|q: int| 0 <= q < k + 1 && #[trigger] conc(g[q], edges, acc, q as usize, w);
        if q < k {
            assert(earlier);
        } else {
            assert(through);
        }
    }
    if earlier {
        let q = choose|q: int| 0 <= q < k && #[trigger] conc(g[q], edges, acc, q as usize, w);
        assert(0 <= q < k + 1);
    }
    if through {
        assert(conc(g[k as int], edges, acc, (k as int) as usize, w));
    }
    assert(all == (through || earlier));
    match into {
        Some(i) => {
            lemma_conc_cat(edges, acc, i, out, k, w);
            match out {
                Some(o) => {
                    match fi0 {
                        Some(c) => {
                            lemma_union_matches(c, cat_spec(i, o), w);
                        },
                        None => {},
                    }
                },
                None => {},
            }
        },
        None => {
            if through {
                let j = choose|j: int|
                    0 <= j <= w.len() && opt_matches(into, w.subrange(0, j)) && lang(edges, acc, k, w.subrange(j, w.len() as int));
            }
        },
    }
}

/// Removes every way into and out of `k`.
fn clear_state(
    t: &mut Vec<Vec<Option<Expr>>>,
    f: &mut Vec<Vec<Option<Expr>>>,
    g: &mut Vec<Vec<Option<Expr>>>,
    k: usize,
    n: Ghost<nat>,
    ns: Ghost<nat>,
)
    requires
        table_wf(old(t)@, n@, n@, ns@),
        table_wf(old(f)@, n@, 1, ns@),
        table_wf(old(g)@, 1, n@, ns@),
        k < n@,
    ensures
        table_wf(final(t)@, n@, n@, ns@),
        table_wf(final(f)@, n@, 1, ns@),
        table_wf(final(g)@, 1, n@, ns@),
        forall|a: int, b: int|
            0 <= a < n@ && 0 <= b < n@ ==> #[trigger] final(t)@[a]@[b] == if a == k || b == k {
                None
            } else {
                old(t)@[a]@[b]
            },
        forall|a: int| 0 <= a < n@ ==> #[trigger] final(f)@[a]@[0] == if a == k { None } else { old(f)@[a]@[0] },
        forall|b: int| 0 <= b < n@ ==> #[trigger] final(g)@[0]@[b] == if b == k { None } else { old(g)@[0]@[b] },
{
    let ghost t0 = t@;
    let mut j: usize = 0;
    while j < t.len()
        invariant
            t@.len() == n@,
            j <= n@,
            k < n@,
            table_wf(t@, n@, n@, ns@),
            forall|a: int, b: int|
                0 <= a < n@ && 0 <= b < n@ ==> #[trigger] t@[a]@[b] == if (a == k && b < j) || (b == k && a < j) {
                    None
                } else {
                    t0[a]@[b]
                },
        decreases n@ - j,
    {
        set_entry(t, j, k, None, n, n, ns);
        set_entry(t, k, j, None, n, n, ns);
        j = j + 1;
    }
    set_entry(f, k, 0, None, n, Ghost(1), ns);
    set_entry(g, 0, k, None, Ghost(1), n, ns);
}

/// The entry of the table from a state to `q` after the first `i` edges of
/// its row were added: the alternation of their symbols, in row order.
pub open spec fn lits(row: Seq<(usize, usize)>, q: usize, i: nat) -> Option<Expr>
    decreases i,
{
    if i == 0 || i > row.len() {
        None
    } else {
        let prev = lits(row, q, (i - 1) as nat);
        if row[i - 1].1 == q {
            Some(merge(prev, Expr::Lit(row[i - 1].0)))
        } else {
            prev
        }
    }
}

/// The way from `p` to the final state once the states from `k` on are
/// eliminated, the last first.
pub open spec fn way(edges: Seq<Seq<(usize, usize)>>, acc: Seq<bool>, p: nat, k: nat) -> Option<Expr>
    decreases edges.len() - k,
{
    if k >= edges.len() {
        if p < acc.len() && acc[p as int] {
            Some(Expr::Empty)
        } else {
            None
        }
    } else {
        let into = if p < k {
            lits(edges[p as int], k as usize, edges[p as int].len())
        } else {
            None
        };
        stepped(way(edges, acc, p, k + 1), into, way(edges, acc, k, k + 1))
    }
}

/// The way from the added initial state to the final state once the states
/// from `k` on are eliminated.
pub open spec fn initial_way(edges: Seq<Seq<(usize, usize)>>, acc: Seq<bool>, s: nat, k: nat) -> Option<Expr>
    decreases edges.len() - k,
{
    if k >= edges.len() {
        None
    } else {
        let into = if k == s {
            Some(Expr::Empty)
        } else {
            None
        };
        stepped(initial_way(edges, acc, s, k + 1), into, way(edges, acc, k, k + 1))
    }
}

/// The expression that state elimination reads off the automaton with
/// these rows, acceptance and start.
pub open spec fn synth_of(e: Seq<Seq<(usize, usize)>>, acc: Seq<bool>, start: usize) -> Expr {
    match initial_way(e, acc, start as nat, 0) {
        Some(r) => r,
        None => Expr::Empty,
    }
}

/// The expression that state elimination reads off the automaton.
pub open spec fn synth_spec(d: Dfa) -> Expr {
    synth_of(rows(d.edges@), d.accepting@, d.start)
}

/// The expression of the words that the automaton accepts, by state
/// elimination. Beside the table of ways between states stand a column of
/// ways from each state to an added final state, which each accepting state
/// reaches by the empty word, and a row of ways from an added initial state,
/// which reaches the start by the empty word. The states are removed from the
/// last to the first: each way into the removed state, any loop on it, and
/// each way out are joined into a direct way, and ways between the same two
/// places are alternated. What leads from the initial to the final state is
/// the result; where nothing does, the result is `Empty`.
pub fn synthesize(d: &Dfa, num_symbols: Ghost<nat>) -> (e: Expr)
    requires
        d.wf(num_symbols@),
        forward(d.edges@),
    ensures
        wf_expr(e, num_symbols@),
        (exists|w: Seq<usize>| d.accepts(w)) ==> forall|w: Seq<usize>| #[trigger] expr_matches(e, w) == d.accepts(w),
        (forall|w: Seq<usize>| !d.accepts(w)) ==> e is Empty,
        e == synth_spec(*d),
{
    let ghost ed = d.edges@;
    let ghost acc = d.accepting@;
    let n = d.edges.len();
    let ghost gn: nat = n as nat;
    let ghost one: nat = 1;
    let mut t = table(n, n, num_symbols);
    let mut f = table(n, 1, num_symbols);
    let mut g = table(1, n, num_symbols);
    let mut fi = table(1, 1, num_symbols);
    let mut p: usize = 0;
    while p < n
        invariant
            n == d.edges@.len(),
            ed == d.edges@,
            acc == d.accepting@,
            gn == n,
            one == 1,
            p <= n,
            d.wf(num_symbols@),
            forward(ed),
            table_wf(t@, gn, gn, num_symbols@),
            table_wf(f@, gn, one, num_symbols@),
            forall|r: int, q: int| p <= r < n && 0 <= q < n ==> (#[trigger] t@[r]@[q]) is None,
            forall|r: int| p <= r < n ==> (#[trigger] f@[r]@[0]) is None,
            forall|r: int| 0 <= r < p ==> (#[trigger] f@[r]@[0]) == (if acc[r] { Some(Expr::Empty) } else { None }),
            forall|r: int, q: int, u: Seq<usize>|
                0 <= r < p && 0 <= q < n ==> #[trigger] opt_matches(t@[r]@[q], u) == exists|i: int|
                    0 <= i < ed[r]@.len() && u == seq![ed[r]@[i].0] && #[trigger] ed[r]@[i].1 == q,
            forall|r: int, q: int| 0 <= r < n && 0 <= q < n && (#[trigger] t@[r]@[q]) is Some ==> r < q,
            forall|r: int, q: int| 0 <= r < p && 0 <= q < n ==> #[trigger] t@[r]@[q] == lits(ed[r]@, q as usize, ed[r]@.len()),
        decreases n - p,
    {
        let mut i: usize = 0;
        while i < d.edges[p].len()
            invariant
                p < n,
                n == d.edges@.len(),
                ed == d.edges@,
                acc == d.accepting@,
                gn == n,
                d.wf(num_symbols@),
                forward(ed),
                i <= ed[p as int]@.len(),
                table_wf(t@, gn, gn, num_symbols@),
                forall|r: int, q: int| p < r < n && 0 <= q < n ==> (#[trigger] t@[r]@[q]) is None,
                forall|r: int, q: int, u: Seq<usize>|
                    0 <= r < p && 0 <= q < n ==> #[trigger] opt_matches(t@[r]@[q], u) == exists|k: int|
                        0 <= k < ed[r]@.len() && u == seq![ed[r]@[k].0] && #[trigger] ed[r]@[k].1 == q,
                forall|q: int, u: Seq<usize>|
                    0 <= q < n ==> #[trigger] opt_matches(t@[p as int]@[q], u) == exists|k: int|
                        0 <= k < i && u == seq![ed[p as int]@[k].0] && #[trigger] ed[p as int]@[k].1 == q,
                forall|r: int, q: int| 0 <= r < n && 0 <= q < n && (#[trigger] t@[r]@[q]) is Some ==> r < q,
                forall|r: int, q: int| 0 <= r < p && 0 <= q < n ==> #[trigger] t@[r]@[q] == lits(ed[r]@, q as usize, ed[r]@.len()),
                forall|q: int| 0 <= q < n ==> #[trigger] t@[p as int]@[q] == lits(ed[p as int]@, q as usize, i as nat),
            decreases ed[p as int]@.len() - i,
        {
            let (a, q) = d.edges[p][i];
            let ghost before = t@;
            add_path(&mut t, p, q, Expr::Lit(a), Ghost(gn), Ghost(gn), num_symbols);
            proof {
                assert(q > p);
                assert forall|r: int, q2: int| 0 <= r < p && 0 <= q2 < n implies #[trigger] t@[r]@[q2] == lits(ed[r]@, q2 as usize, ed[r]@.len()) by {
                    assert(t@[r]@[q2] == before[r]@[q2]);
                }
                assert forall|q2: int| 0 <= q2 < n implies #[trigger] t@[p as int]@[q2] == lits(ed[p as int]@, q2 as usize, (i + 1) as nat) by {
                    if q2 != q {
                        assert(t@[p as int]@[q2] == before[p as int]@[q2]);
                    }
                }
                assert forall|r: int, q2: int| 0 <= r < n && 0 <= q2 < n && (#[trigger] t@[r]@[q2]) is Some implies r < q2 by {
                    if r != p || q2 != q {
                        assert(t@[r]@[q2] == before[r]@[q2]);
                    }
                }
                assert forall|r: int, q2: int, u: Seq<usize>|
                    0 <= r < p && 0 <= q2 < n implies #[trigger] opt_matches(t@[r]@[q2], u) == exists|k: int|
                        0 <= k < ed[r]@.len() && u == seq![ed[r]@[k].0] && #[trigger] ed[r]@[k].1 == q2 by {
                    assert(t@[r]@[q2] == before[r]@[q2]);
                }
                assert forall|q2: int, u: Seq<usize>|
                    0 <= q2 < n implies #[trigger] opt_matches(t@[p as int]@[q2], u) == exists|k: int|
                        0 <= k < i + 1 && u == seq![ed[p as int]@[k].0] && #[trigger] ed[p as int]@[k].1 == q2 by {
                    assert(opt_matches(before[p as int]@[q2], u) == exists|k: int|
                        0 <= k < i && u == seq![ed[p as int]@[k].0] && #[trigger] ed[p as int]@[k].1 == q2);
                    if q2 == q {
                        match before[p as int]@[q2] {
                            Some(c) => {
                                lemma_union_matches(c, Expr::Lit(a), u);
                            },
                            None => {},
                        }
                        if u == seq![a] {
                            assert(0 <= i < i + 1 && u == seq![ed[p as int]@[i as int].0] && ed[p as int]@[i as int].1 == q2);
                        }
                    } else {
                        assert(t@[p as int]@[q2] == before[p as int]@[q2]);
                    }
                }
            }
            i = i + 1;
        }
        if d.accepting[p] {
            add_path(&mut f, p, 0, Expr::Empty, Ghost(gn), Ghost(one), num_symbols);
        }
        p = p + 1;
    }
    let s = d.start;
    add_path(&mut g, 0, s, Expr::Empty, Ghost(one), Ghost(gn), num_symbols);
    proof {
        assert forall|q: int| 0 <= q < n implies #[trigger] g@[0]@[q] == (if q == s { Some(Expr::Empty) } else { None }) by {}
        assert forall|p2: int| 0 <= p2 < n implies #[trigger] f@[p2]@[0] == way(rows(ed), acc, p2 as nat, n as nat) by {}
        assert(fi@[0]@[0] == initial_way(rows(ed), acc, s as nat, n as nat));
        assert forall|p: usize, w: Seq<usize>| p < n implies #[trigger] row_ok(ed, acc, t@, f@, n as int, p, w) by {
            lemma_initial_row(ed, acc, t@, f@, p, w);
        }
        assert forall|w: Seq<usize>| #[trigger] start_ok(ed, acc, s, g@[0]@, fi@[0]@[0], n as int, w) by {
            assert(w.subrange(0, 0) =~= Seq::<usize>::empty());
            assert(w.subrange(0, w.len() as int) =~= w);
            if lang(ed, acc, s, w) {
                assert(conc(g@[0]@[s as int], ed, acc, s, w));
                let si = s as int;
                assert(0 <= si < n && conc(g@[0]@[si], ed, acc, si as usize, w));
            }
            if exists|q: int| 0 <= q < n && #[trigger] conc(g@[0]@[q], ed, acc, q as usize, w) {
                let q = choose|q: int| 0 <= q < n && #[trigger] conc(g@[0]@[q], ed, acc, q as usize, w);
                assert(q == s);
                let j = choose|j: int|
                    0 <= j <= w.len() && opt_matches(g@[0]@[q], w.subrange(0, j)) && lang(ed, acc, q as usize, w.subrange(j, w.len() as int));
                assert(j == 0);
            }
        }
    }
    let mut k: usize = n;
    while k > 0
        invariant
            k <= n,
            n == ed.len(),
            gn == n,
            one == 1,
            s < n,
            ed == d.edges@,
            acc == d.accepting@,
            acc.len() == n,
            table_wf(t@, gn, gn, num_symbols@),
            table_wf(f@, gn, one, num_symbols@),
            table_wf(g@, one, gn, num_symbols@),
            table_wf(fi@, one, one, num_symbols@),
            shape(t@, g@[0]@, n as int, k as int),
            forall|p: usize, w: Seq<usize>| p < k ==> #[trigger] row_ok(ed, acc, t@, f@, k as int, p, w),
            forall|w: Seq<usize>| #[trigger] start_ok(ed, acc, s, g@[0]@, fi@[0]@[0], k as int, w),
            forall|p: int, q: int| 0 <= p < k && 0 <= q < k ==> #[trigger] t@[p]@[q] == lits(ed[p]@, q as usize, ed[p]@.len()),
            forall|p: int| 0 <= p < k ==> #[trigger] f@[p]@[0] == way(rows(ed), acc, p as nat, k as nat),
            forall|q: int| 0 <= q < k ==> #[trigger] g@[0]@[q] == (if q == s { Some(Expr::Empty) } else { None }),
            fi@[0]@[0] == initial_way(rows(ed), acc, s as nat, k as nat),
        decreases k,
    {
        k = k - 1;
        let ghost t0 = t@;
        let ghost f0 = f@;
        let ghost g0 = g@;
        let ghost fi0 = fi@;
        proof {
            assert forall|v: Seq<usize>| #[trigger] lang(ed, acc, k, v) == opt_matches(f0[k as int]@[0], v) by {
                assert(row_ok(ed, acc, t0, f0, k + 1, k, v));
            }
        }
        let lp = match entry(&t, k, k, Ghost(gn), Ghost(gn), num_symbols) {
            Some(x) => {
                proof {
                    lemma_constructors_wf(x, x, num_symbols@);
                }
                star(x)
            },
            None => Expr::Empty,
        };
        assert(lp == Expr::Empty);
        let mut p: usize = 0;
        while p < n
            invariant
                k < n,
                p <= n,
                n == ed.len(),
                gn == n,
                one == 1,
                table_wf(t@, gn, gn, num_symbols@),
                table_wf(f@, gn, one, num_symbols@),
                t@ == t0,
                shape(t0, g0[0]@, n as int, k + 1),
                lp == Expr::Empty,
                wf_expr(lp, num_symbols@),
                forall|r: int| 0 <= r < n && (r >= p || r >= k) ==> #[trigger] f@[r]@[0] == f0[r]@[0],
                forall|r: int|
                    0 <= r < p && r < k ==> #[trigger] f@[r]@[0] == stepped(f0[r]@[0], t0[r]@[k as int], f0[k as int]@[0]),
            decreases n - p,
        {
            if p < k {
                if let Some(into) = entry(&t, p, k, Ghost(gn), Ghost(gn), num_symbols) {
                    let a = dup(&into);
                    let b = dup(&lp);
                    proof {
                        lemma_constructors_wf(a, b, num_symbols@);
                    }
                    let via = cat(a, b);
                    let mut q: usize = 0;
                    while q < n
                        invariant
                            k < n,
                            p < k,
                            q <= n,
                            gn == n,
                            table_wf(t@, gn, gn, num_symbols@),
                            t@ == t0,
                            shape(t0, g0[0]@, n as int, k + 1),
                            wf_expr(via, num_symbols@),
                        decreases n - q,
                    {
                        if q != k {
                            if let Some(out) = entry(&t, k, q, Ghost(gn), Ghost(gn), num_symbols) {
                                let x = dup(&via);
                                proof {
                                    lemma_constructors_wf(x, out, num_symbols@);
                                }
                                add_path(&mut t, p, q, cat(x, out), Ghost(gn), Ghost(gn), num_symbols);
                            }
                        }
                        q = q + 1;
                    }
                    if let Some(out) = entry(&f, k, 0, Ghost(gn), Ghost(one), num_symbols) {
                        proof {
                            lemma_constructors_wf(via, out, num_symbols@);
                        }
                        let ghost fb = f@;
                        add_path(&mut f, p, 0, cat(via, out), Ghost(gn), Ghost(one), num_symbols);
                        proof {
                            assert forall|r: int| 0 <= r < n && r != p implies #[trigger] f@[r]@[0] == fb[r]@[0] by {}
                        }
                    }
                }
            }
            p = p + 1;
        }
        if let Some(into) = entry(&g, 0, k, Ghost(one), Ghost(gn), num_symbols) {
            let a = dup(&into);
            let b = dup(&lp);
            proof {
                lemma_constructors_wf(a, b, num_symbols@);
            }
            let via = cat(a, b);
            let mut q: usize = 0;
            while q < n
                invariant
                    k < n,
                    q <= n,
                    gn == n,
                    one == 1,
                    table_wf(g@, one, gn, num_symbols@),
                    table_wf(t@, gn, gn, num_symbols@),
                    g@ == g0,
                    t@ == t0,
                    shape(t0, g0[0]@, n as int, k + 1),
                    wf_expr(via, num_symbols@),
                decreases n - q,
            {
                if q != k {
                    if let Some(out) = entry(&t, k, q, Ghost(gn), Ghost(gn), num_symbols) {
                        let x = dup(&via);
                        proof {
                            lemma_constructors_wf(x, out, num_symbols@);
                        }
                        add_path(&mut g, 0, q, cat(x, out), Ghost(one), Ghost(gn), num_symbols);
                    }
                }
                q = q + 1;
            }
            if let Some(out) = entry(&f, k, 0, Ghost(gn), Ghost(one), num_symbols) {
                proof {
                    lemma_constructors_wf(via, out, num_symbols@);
                }
                add_path(&mut fi, 0, 0, cat(via, out), Ghost(one), Ghost(one), num_symbols);
            }
        }
        proof {
            assert(f@[k as int]@[0] == f0[k as int]@[0]);
            assert forall|p: usize, w: Seq<usize>| p < k implies #[trigger] row_ok(ed, acc, t0, f@, k as int, p, w) by {
                assert(row_ok(ed, acc, t0, f0, k + 1, p, w));
                lemma_step_row(ed, acc, t0, f0, f@, k, p, w);
            }
            assert forall|w: Seq<usize>| #[trigger] start_ok(ed, acc, s, g0[0]@, fi@[0]@[0], k as int, w) by {
                assert(start_ok(ed, acc, s, g0[0]@, fi0[0]@[0], k + 1, w));
                lemma_step_start(ed, acc, s, g0[0]@, f0, fi0[0]@[0], fi@[0]@[0], k, w);
            }
        }
        let ghost t1 = t@;
        let ghost f1 = f@;
        let ghost g1 = g@;
        clear_state(&mut t, &mut f, &mut g, k, Ghost(gn), num_symbols);
        proof {
            assert forall|p: usize, w: Seq<usize>| p < k implies #[trigger] row_ok(ed, acc, t@, f@, k as int, p, w) by {
                assert(row_ok(ed, acc, t1, f1, k as int, p, w));
                assert forall|q: int| p < q < k implies #[trigger] t@[p as int]@[q] == t1[p as int]@[q] by {}
                assert(f@[p as int]@[0] == f1[p as int]@[0]);
                if exists|q: int| p < q < k && #[trigger] conc(t1[p as int]@[q], ed, acc, q as usize, w) {
                    let q = choose|q: int| p < q < k && #[trigger] conc(t1[p as int]@[q], ed, acc, q as usize, w);
                    assert(t@[p as int]@[q] == t1[p as int]@[q]);
                    assert(conc(t@[p as int]@[q], ed, acc, q as usize, w));
                }
                if exists|q: int| p < q < k && #[trigger] conc(t@[p as int]@[q], ed, acc, q as usize, w) {
                    let q = choose|q: int| p < q < k && #[trigger] conc(t@[p as int]@[q], ed, acc, q as usize, w);
                    assert(t@[p as int]@[q] == t1[p as int]@[q]);
                    assert(conc(t1[p as int]@[q], ed, acc, q as usize, w));
                }
            }
            assert forall|w: Seq<usize>| #[trigger] start_ok(ed, acc, s, g@[0]@, fi@[0]@[0], k as int, w) by {
                assert(start_ok(ed, acc, s, g1[0]@, fi@[0]@[0], k as int, w));
                if exists|q: int| 0 <= q < k && #[trigger] conc(g1[0]@[q], ed, acc, q as usize, w) {
                    let q = choose|q: int| 0 <= q < k && #[trigger] conc(g1[0]@[q], ed, acc, q as usize, w);
                    assert(g@[0]@[q] == g1[0]@[q]);
                    assert(conc(g@[0]@[q], ed, acc, q as usize, w));
                }
                if exists|q: int| 0 <= q < k && #[trigger] conc(g@[0]@[q], ed, acc, q as usize, w) {
                    let q = choose|q: int| 0 <= q < k && #[trigger] conc(g@[0]@[q], ed, acc, q as usize, w);
                    assert(g@[0]@[q] == g1[0]@[q]);
                    assert(conc(g1[0]@[q], ed, acc, q as usize, w));
                }
            }
            assert forall|p: int, q: int| 0 <= p < n && 0 <= q < n && (#[trigger] t@[p]@[q]) is Some implies p < q < k by {
                assert(t@[p]@[q] == t1[p]@[q]);
            }
            assert forall|q: int| 0 <= q < n && (#[trigger] g@[0]@[q]) is Some implies q < k by {}
            assert forall|p2: int, q: int| 0 <= p2 < k && 0 <= q < k implies #[trigger] t@[p2]@[q] == lits(ed[p2]@, q as usize, ed[p2]@.len()) by {
                assert(t@[p2]@[q] == t1[p2]@[q]);
                assert(t0[p2]@[q] == lits(ed[p2]@, q as usize, ed[p2]@.len()));
            }
            assert forall|p2: int| 0 <= p2 < k implies #[trigger] f@[p2]@[0] == way(rows(ed), acc, p2 as nat, k as nat) by {
                assert(f@[p2]@[0] == f1[p2]@[0]);
                assert(f0[p2]@[0] == way(rows(ed), acc, p2 as nat, (k + 1) as nat));
                assert(f0[k as int]@[0] == way(rows(ed), acc, k as nat, (k + 1) as nat));
                assert(t0[p2]@[k as int] == lits(ed[p2]@, k, ed[p2]@.len()));
                assert(rows(ed)[p2] == ed[p2]@);
            }
            assert forall|q: int| 0 <= q < k implies #[trigger] g@[0]@[q] == (if q == s { Some(Expr::Empty) } else { None }) by {
                assert(g@[0]@[q] == g1[0]@[q]);
                assert(g0[0]@[q] == (if q == s { Some(Expr::Empty) } else { None }));
            }
            assert(g0[0]@[k as int] == (if k == s { Some(Expr::Empty) } else { None }));
            assert(f0[k as int]@[0] == way(rows(ed), acc, k as nat, (k + 1) as nat));
            assert(fi@[0]@[0] == initial_way(rows(ed), acc, s as nat, k as nat));
        }
    }
    proof {
        assert forall|w: Seq<usize>| lang(ed, acc, s, w) == opt_matches(fi@[0]@[0], w) by {
            assert(start_ok(ed, acc, s, g@[0]@, fi@[0]@[0], 0, w));
        }
    }
    match entry(&fi, 0, 0, Ghost(one), Ghost(one), num_symbols) {
        Some(r) => {
            proof {
                lemma_matches_some(r);
                let w = choose|w: Seq<usize>| expr_matches(r, w);
                assert(lang(ed, acc, s, w) == opt_matches(fi@[0]@[0], w));
                assert(d.accepts(w));
            }
            r
        },
        None => {
            proof {
                assert forall|w: Seq<usize>| !d.accepts(w) by {
                    assert(lang(ed, acc, s, w) == opt_matches(fi@[0]@[0], w));
                }
            }
            Expr::Empty
        },
    }
}

} // verus!
