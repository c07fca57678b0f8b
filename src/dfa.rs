//! Deterministic finite automata over symbol numbers: built as a trie of the
//! words, then reduced by merging equivalent states.

use crate::repetition::{same_symbol, symbol_views};
use crate::text::Symbol;
use vstd::prelude::*;

verus! {

/// An automaton stored as an arena: state `q` has the outgoing edges
/// `edges[q]`, each a symbol number and a target state.
#[derive(Debug)]
pub struct Dfa {
    pub edges: Vec<Vec<(usize, usize)>>,
    pub accepting: Vec<bool>,
    pub start: usize,
}

impl Dfa {
    pub open spec fn num_states(&self) -> nat {
        self.edges@.len()
    }

    /// Every edge stays inside the arena and carries a known symbol, and no
    /// state has two edges with one symbol.
    pub open spec fn wf(&self, num_symbols: nat) -> bool {
        &&& self.edges@.len() >= 1
        &&& self.accepting@.len() == self.edges@.len()
        &&& self.start < self.edges@.len()
        &&& forall|q: int, i: int|
            0 <= q < self.edges@.len() && 0 <= i < self.edges@[q]@.len() ==> {
                &&& (#[trigger] self.edges@[q]@[i]).0 < num_symbols
                &&& self.edges@[q]@[i].1 < self.edges@.len()
            }
        &&& forall|q: int, i: int, j: int|
            0 <= q < self.edges@.len() && 0 <= i < j < self.edges@[q]@.len() ==> (
            #[trigger] self.edges@[q]@[i]).0 != (#[trigger] self.edges@[q]@[j]).0
    }

    /// Whether the automaton accepts the word.
    pub open spec fn accepts(&self, w: Seq<usize>) -> bool {
        lang(self.edges@, self.accepting@, self.start, w)
    }
}

/// Whether the word leads from `q` to an accepting state.
pub open spec fn lang(edges: Seq<Vec<(usize, usize)>>, acc: Seq<bool>, q: usize, w: Seq<usize>) -> bool {
    match reach(edges, q, w) {
        Some(p) => p < acc.len() && acc[p as int],
        None => false,
    }
}

/// Every edge leads to a later state, as in a trie.
pub open spec fn forward(edges: Seq<Vec<(usize, usize)>>) -> bool {
    forall|p: int, i: int| 0 <= p < edges.len() && 0 <= i < edges[p]@.len() ==> (#[trigger] edges[p]@[i]).1 > p
}

proof fn lemma_reach_first(edges: Seq<Vec<(usize, usize)>>, q: usize, a: usize, x: Seq<usize>)
    requires
        q < edges.len(),
    ensures
        reach(edges, q, seq![a] + x) == match next(edges[q as int]@, a) {
            Some(t) => reach(edges, t, x),
            None => None,
        },
    decreases x.len(),
{
    if x.len() == 0 {
        assert((seq![a] + x).drop_last() =~= Seq::<usize>::empty());
        assert((seq![a] + x).last() == a);
        assert(reach(edges, q, Seq::<usize>::empty()) == Some(q));
    } else {
        lemma_reach_first(edges, q, a, x.drop_last());
        assert((seq![a] + x).drop_last() =~= seq![a] + x.drop_last());
        assert((seq![a] + x).last() == x.last());
    }
}

pub proof fn lemma_lang_first(edges: Seq<Vec<(usize, usize)>>, acc: Seq<bool>, q: usize, x: Seq<usize>)
    requires
        q < edges.len(),
        x.len() > 0,
    ensures
        lang(edges, acc, q, x) == match next(edges[q as int]@, x[0]) {
            Some(t) => lang(edges, acc, t, x.drop_first()),
            None => false,
        },
{
    lemma_reach_first(edges, q, x[0], x.drop_first());
    assert(x =~= seq![x[0]] + x.drop_first());
}

/// Where the edge with symbol `a` of a row leads, if the row has one.
pub open spec fn next(row: Seq<(usize, usize)>, a: usize) -> Option<usize>
    decreases row.len(),
{
    if row.len() == 0 {
        None
    } else if row.last().0 == a {
        Some(row.last().1)
    } else {
        next(row.drop_last(), a)
    }
}

/// The state that the word leads to from `q`, if it leads anywhere.
pub open spec fn reach(edges: Seq<Vec<(usize, usize)>>, q: usize, w: Seq<usize>) -> Option<usize>
    decreases w.len(),
{
    if w.len() == 0 {
        Some(q)
    } else {
        match reach(edges, q, w.drop_last()) {
            Some(p) => if p < edges.len() {
                next(edges[p as int]@, w.last())
            } else {
                None
            },
            None => None,
        }
    }
}

pub open spec fn unique_symbols(row: Seq<(usize, usize)>) -> bool {
    forall|i: int, j: int| 0 <= i < j < row.len() ==> (#[trigger] row[i]).0 != (#[trigger] row[j]).0
}

pub proof fn lemma_next(row: Seq<(usize, usize)>, a: usize)
    requires
        unique_symbols(row),
    ensures
        (forall|i: int| 0 <= i < row.len() ==> (#[trigger] row[i]).0 != a) ==> next(row, a) is None,
        forall|i: int| 0 <= i < row.len() && (#[trigger] row[i]).0 == a ==> next(row, a) == Some(row[i].1),
    decreases row.len(),
{
    if row.len() > 0 {
        let init = row.drop_last();
        assert(unique_symbols(init)) by {
            assert forall|i: int, j: int| 0 <= i < j < init.len() implies (#[trigger] init[i]).0 != (
            #[trigger] init[j]).0 by {
                assert(init[i] == row[i] && init[j] == row[j]);
            }
        }
        lemma_next(init, a);
        if row.last().0 != a {
            if forall|i: int| 0 <= i < row.len() ==> (#[trigger] row[i]).0 != a {
                assert forall|i: int| 0 <= i < init.len() implies (#[trigger] init[i]).0 != a by {
                    assert(init[i] == row[i]);
                }
            }
            assert forall|i: int| 0 <= i < row.len() && (#[trigger] row[i]).0 == a implies next(row, a)
                == Some(row[i].1) by {
                assert(i < row.len() - 1);
                assert(init[i] == row[i]);
            }
        } else {
            assert forall|i: int| 0 <= i < row.len() && (#[trigger] row[i]).0 == a implies next(row, a)
                == Some(row[i].1) by {
                if i < row.len() - 1 {
                    assert(row[i].0 != row[row.len() - 1].0);
                }
            }
        }
    }
}

/// The symbol numbers of the words: equal symbols get one number, in the order
/// in which they first occur.
pub struct Interned {
    pub alphabet: Vec<Symbol>,
    pub words: Vec<Vec<usize>>,
}

pub open spec fn all_below(words: Seq<Vec<usize>>, n: nat) -> bool {
    forall|w: int, i: int|
        0 <= w < words.len() && 0 <= i < words[w]@.len() ==> #[trigger] words[w]@[i] < n
}

/// `alpha` followed by the symbols of `syms` that it lacks, in order of first
/// occurrence.
pub open spec fn add_syms(alpha: Seq<(Seq<char>, bool)>, syms: Seq<(Seq<char>, bool)>) -> Seq<(Seq<char>, bool)>
    decreases syms.len(),
{
    if syms.len() == 0 {
        alpha
    } else {
        let a = add_syms(alpha, syms.drop_last());
        if a.contains(syms.last()) {
            a
        } else {
            a.push(syms.last())
        }
    }
}

/// The distinct symbols of the words, in order of first occurrence.
pub open spec fn alphabet_spec(ws: Seq<Seq<(Seq<char>, bool)>>) -> Seq<(Seq<char>, bool)>
    decreases ws.len(),
{
    if ws.len() == 0 {
        Seq::empty()
    } else {
        add_syms(alphabet_spec(ws.drop_last()), ws.last())
    }
}

pub open spec fn word_symbols(words: Seq<Vec<Symbol>>) -> Seq<Seq<(Seq<char>, bool)>> {
    words.map_values(|v: Vec<Symbol>| symbol_views(v@))
}

/// Numbers the symbols of the words.
pub fn intern(words: &Vec<Vec<Symbol>>) -> (r: Interned)
    ensures
        symbol_views(r.alphabet@) == alphabet_spec(word_symbols(words@)),
        r.words@.len() == words@.len(),
        all_below(r.words@, r.alphabet@.len() as nat),
        forall|w: int| 0 <= w < words@.len() ==> (#[trigger] r.words@[w])@.len() == words@[w]@.len(),
        forall|w: int, i: int|
            0 <= w < words@.len() && 0 <= i < words@[w]@.len() ==> r.alphabet@[r.words@[w]@[i] as int]@
                == (#[trigger] words@[w]@[i])@,
        forall|a: int, b: int|
            0 <= a < b < r.alphabet@.len() ==> (#[trigger] r.alphabet@[a])@ != (#[trigger] r.alphabet@[b])@,
{
    let mut alphabet: Vec<Symbol> = Vec::new();
    let mut out: Vec<Vec<usize>> = Vec::new();
    let mut w: usize = 0;
    while w < words.len()
        invariant
            w <= words@.len(),
            out@.len() == w,
            symbol_views(alphabet@) == alphabet_spec(word_symbols(words@).subrange(0, w as int)),
            all_below(out@, alphabet@.len() as nat),
            forall|x: int| 0 <= x < w ==> (#[trigger] out@[x])@.len() == words@[x]@.len(),
            forall|x: int, i: int|
                0 <= x < w && 0 <= i < words@[x]@.len() ==> alphabet@[out@[x]@[i] as int]@
                    == (#[trigger] words@[x]@[i])@,
            forall|a: int, b: int|
                0 <= a < b < alphabet@.len() ==> (#[trigger] alphabet@[a])@ != (#[trigger] alphabet@[b])@,
        decreases words@.len() - w,
    {
        let mut ids: Vec<usize> = Vec::new();
        let mut i: usize = 0;
        let ghost base = symbol_views(alphabet@);
        proof {
            let ws = word_symbols(words@);
            assert(ws.subrange(0, w + 1).drop_last() =~= ws.subrange(0, w as int));
            assert(ws.subrange(0, w + 1).last() == symbol_views(words@[w as int]@));
            assert(symbol_views(words@[w as int]@).subrange(0, 0) =~= Seq::<(Seq<char>, bool)>::empty());
        }
        while i < words[w].len()
            invariant
                w < words@.len(),
                base == alphabet_spec(word_symbols(words@).subrange(0, w as int)),
                symbol_views(alphabet@) == add_syms(base, symbol_views(words@[w as int]@).subrange(0, i as int)),
                i <= words@[w as int]@.len(),
                ids@.len() == i,
                out@.len() == w,
                all_below(out@, alphabet@.len() as nat),
                forall|k: int| 0 <= k < i ==> #[trigger] ids@[k] < alphabet@.len(),
                forall|k: int|
                    0 <= k < i ==> alphabet@[ids@[k] as int]@ == (#[trigger] words@[w as int]@[k])@,
                forall|x: int| 0 <= x < w ==> (#[trigger] out@[x])@.len() == words@[x]@.len(),
                forall|x: int, j: int|
                    0 <= x < w && 0 <= j < words@[x]@.len() ==> alphabet@[out@[x]@[j] as int]@
                        == (#[trigger] words@[x]@[j])@,
                forall|a: int, b: int|
                    0 <= a < b < alphabet@.len() ==> (#[trigger] alphabet@[a])@ != (
                    #[trigger] alphabet@[b])@,
            decreases words@[w as int]@.len() - i,
        {
            let sym = &words[w][i];
            let mut k: usize = 0;
            while k < alphabet.len() && !same_symbol(&alphabet[k], sym)
                invariant
                    k <= alphabet@.len(),
                    forall|j: int| 0 <= j < k ==> (#[trigger] alphabet@[j])@ != sym@,
                decreases alphabet@.len() - k,
            {
                k = k + 1;
            }
            let ghost av = symbol_views(alphabet@);
            proof {
                let sv = symbol_views(words@[w as int]@);
                assert(sv.subrange(0, i + 1).drop_last() =~= sv.subrange(0, i as int));
                assert(sv.subrange(0, i + 1).last() == sym@);
                if k == alphabet.len() {
                    assert forall|j: int| 0 <= j < av.len() implies av[j] != sym@ by {
                        assert(av[j] == alphabet@[j]@);
                    }
                } else {
                    assert(av[k as int] == alphabet@[k as int]@);
                }
            }
            if k == alphabet.len() {
                alphabet.push(Symbol { text: sym.text.clone(), single: sym.single });
                assert(symbol_views(alphabet@) =~= av.push(sym@));
            }
            ids.push(k);
            i = i + 1;
        }
        assert(symbol_views(words@[w as int]@).subrange(0, i as int) =~= symbol_views(words@[w as int]@));
        out.push(ids);
        w = w + 1;
    }
    assert(word_symbols(words@).subrange(0, words@.len() as int) =~= word_symbols(words@));
    Interned { alphabet, words: out }
}

/// The edge of `row` with symbol `a`, as a position in the row.
fn find_edge(row: &Vec<(usize, usize)>, a: usize) -> (r: Option<usize>)
    ensures
        match r {
            Some(i) => i < row@.len() && row@[i as int].0 == a,
            None => forall|i: int| 0 <= i < row@.len() ==> (#[trigger] row@[i]).0 != a,
        },
{
    let mut i: usize = 0;
    while i < row.len()
        invariant
            i <= row@.len(),
            forall|j: int| 0 <= j < i ==> (#[trigger] row@[j]).0 != a,
        decreases row@.len() - i,
    {
        if row[i].0 == a {
            return Some(i);
        }
        i = i + 1;
    }
    None
}

pub open spec fn targets_inside(edges: Seq<Vec<(usize, usize)>>) -> bool {
    forall|p: int, i: int|
        0 <= p < edges.len() && 0 <= i < edges[p]@.len() ==> (#[trigger] edges[p]@[i]).1 < edges.len()
}

proof fn lemma_reach_inside(edges: Seq<Vec<(usize, usize)>>, q: usize, x: Seq<usize>)
    requires
        targets_inside(edges),
        q < edges.len(),
    ensures
        reach(edges, q, x) matches Some(p) ==> p < edges.len(),
    decreases x.len(),
{
    if x.len() > 0 {
        lemma_reach_inside(edges, q, x.drop_last());
        if let Some(p) = reach(edges, q, x.drop_last()) {
            lemma_next_inside(edges[p as int]@, x.last(), edges.len());
        }
    }
}

proof fn lemma_next_inside(row: Seq<(usize, usize)>, a: usize, n: nat)
    requires
        forall|i: int| 0 <= i < row.len() ==> (#[trigger] row[i]).1 < n,
    ensures
        next(row, a) matches Some(t) ==> t < n,
    decreases row.len(),
{
    if row.len() > 0 {
        let init = row.drop_last();
        assert forall|i: int| 0 <= i < init.len() implies (#[trigger] init[i]).1 < n by {
            assert(init[i] == row[i]);
        }
        lemma_next_inside(init, a, n);
    }
}

/// The word `x` leads from the start to the state that `labels` names for it.
pub open spec fn labelled(edges: Seq<Vec<(usize, usize)>>, labels: Seq<Seq<usize>>, x: Seq<usize>) -> bool {
    match reach(edges, 0, x) {
        Some(p) => p < labels.len() && x == labels[p as int],
        None => true,
    }
}

proof fn lemma_single_state(edges: Seq<Vec<(usize, usize)>>, x: Seq<usize>)
    requires
        edges.len() == 1,
        edges[0]@.len() == 0,
    ensures
        reach(edges, 0, x) == if x.len() == 0 {
            Some(0usize)
        } else {
            None
        },
    decreases x.len(),
{
    if x.len() > 0 {
        lemma_single_state(edges, x.drop_last());
    }
}

/// A fresh state, reached from `q` by a symbol that `q` had no edge for,
/// adds the one word `u·a` and changes where no other word leads.
proof fn lemma_fresh_state(
    old_e: Seq<Vec<(usize, usize)>>,
    new_e: Seq<Vec<(usize, usize)>>,
    q: usize,
    a: usize,
    u: Seq<usize>,
    x: Seq<usize>,
)
    requires
        targets_inside(old_e),
        old_e.len() > 0,
        q < old_e.len(),
        reach(old_e, 0, u) == Some(q),
        forall|y: Seq<usize>| reach(old_e, 0, y) == Some(q) ==> y == u,
        next(old_e[q as int]@, a) is None,
        old_e.len() <= usize::MAX,
        new_e.len() == old_e.len() + 1,
        new_e[old_e.len() as int]@.len() == 0,
        new_e[q as int]@ == old_e[q as int]@.push((a, old_e.len() as usize)),
        forall|p: int| 0 <= p < old_e.len() && p != q ==> #[trigger] new_e[p]@ == old_e[p]@,
    ensures
        reach(new_e, 0, x) == if x == u.push(a) {
            Some(old_e.len() as usize)
        } else {
            reach(old_e, 0, x)
        },
    decreases x.len(),
{
    let f = old_e.len() as usize;
    assert(u.push(a).len() == u.len() + 1);
    if x.len() == 0 {
        assert(x != u.push(a));
    } else {
        let y = x.drop_last();
        let b = x.last();
        lemma_fresh_state(old_e, new_e, q, a, u, y);
        lemma_reach_inside(old_e, 0, y);
        if y == u.push(a) {
            assert(x != u.push(a));
            assert(y.drop_last() =~= u);
            assert(reach(old_e, 0, y) is None);
            assert(reach(new_e, 0, y) == Some(f));
            assert(new_e[f as int]@.len() == 0);
            assert(reach(new_e, 0, x) is None);
        } else {
            match reach(old_e, 0, y) {
                Some(p) => {
                    if p == q {
                        assert(y == u);
                        if b == a {
                            assert(x =~= u.push(a));
                            assert(new_e[q as int]@.last() == (a, f));
                        } else {
                            assert(x != u.push(a));
                            let row = new_e[q as int]@;
                            assert(row.drop_last() =~= old_e[q as int]@);
                        }
                    } else {
                        assert(p < old_e.len());
                        assert(new_e[p as int]@ == old_e[p as int]@);
                        if x == u.push(a) {
                            assert(y =~= u);
                        }
                        assert(reach(new_e, 0, x) == next(old_e[p as int]@, b));
                        assert(reach(old_e, 0, x) == next(old_e[p as int]@, b));
                    }
                },
                None => {
                    if x == u.push(a) {
                        assert(y =~= u);
                    }
                },
            }
        }
    }
}

pub open spec fn rows(edges: Seq<Vec<(usize, usize)>>) -> Seq<Seq<(usize, usize)>> {
    edges.map_values(|r: Vec<(usize, usize)>| r@)
}

pub open spec fn word_views(words: Seq<Vec<usize>>) -> Seq<Seq<usize>> {
    words.map_values(|w: Vec<usize>| w@)
}

/// Adds the rest of `w` from position `i` to the trie, standing at `q`:
/// follows an existing edge where there is one, else adds a new state at the
/// end, and marks the state reached last as accepting.
pub open spec fn walk(
    e: Seq<Seq<(usize, usize)>>,
    acc: Seq<bool>,
    q: nat,
    w: Seq<usize>,
    i: nat,
) -> (Seq<Seq<(usize, usize)>>, Seq<bool>)
    decreases w.len() - i,
{
    if i >= w.len() {
        (e, acc.update(q as int, true))
    } else {
        match next(e[q as int], w[i as int]) {
            Some(t) => walk(e, acc, t as nat, w, i + 1),
            None => walk(
                e.update(q as int, e[q as int].push((w[i as int], e.len() as usize))).push(Seq::empty()),
                acc.push(false),
                e.len(),
                w,
                i + 1,
            ),
        }
    }
}

/// The rows and acceptance of the trie of the words, added in order.
pub open spec fn trie_spec(words: Seq<Seq<usize>>) -> (Seq<Seq<(usize, usize)>>, Seq<bool>)
    decreases words.len(),
{
    if words.len() == 0 {
        (seq![Seq::empty()], seq![false])
    } else {
        let (e, a) = trie_spec(words.drop_last());
        walk(e, a, 0, words.last(), 0)
    }
}

/// The trie of the words: one path from the start for each word, with shared
/// prefixes sharing states, and an accepting state at the end of each word.
pub fn trie(words: &Vec<Vec<usize>>, num_symbols: usize) -> (d: Dfa)
    requires
        all_below(words@, num_symbols as nat),
    ensures
        d.wf(num_symbols as nat),
        d.start == 0,
        forward(d.edges@),
        (rows(d.edges@), d.accepting@) == trie_spec(word_views(words@)),
        forall|x: Seq<usize>| d.accepts(x) <==> exists|j: int| 0 <= j < words@.len() && #[trigger] words@[j]@ == x,
{
    let mut edges: Vec<Vec<(usize, usize)>> = vec![Vec::new()];
    let mut accepting: Vec<bool> = vec![false];
    let ghost mut labels: Seq<Seq<usize>> = seq![Seq::empty()];
    proof {
        assert forall|x: Seq<usize>| #[trigger] labelled(edges@, labels, x) by {
            lemma_single_state(edges@, x);
            if x.len() == 0 {
                assert(x =~= Seq::<usize>::empty());
            }
        }
    }
    let mut w: usize = 0;
    while w < words.len()
        invariant
            w <= words@.len(),
            all_below(words@, num_symbols as nat),
            (Dfa { edges, accepting, start: 0 }).wf(num_symbols as nat),
            labels.len() == edges@.len(),
            forward(edges@),
            (rows(edges@), accepting@) == trie_spec(word_views(words@).subrange(0, w as int)),
            forall|p: int| 0 <= p < labels.len() ==> reach(edges@, 0, #[trigger] labels[p]) == Some(p as usize),
            forall|x: Seq<usize>| #[trigger] labelled(edges@, labels, x),
            forall|p: int|
                0 <= p < labels.len() ==> (#[trigger] accepting@[p] <==> exists|j: int|
                    0 <= j < w && #[trigger] words@[j]@ == labels[p]),
            forall|j: int| 0 <= j < w ==> (#[trigger] reach(edges@, 0, words@[j]@)) is Some,
        decreases words@.len() - w,
    {
        let mut q: usize = 0;
        let mut i: usize = 0;
        let ghost goal = walk(rows(edges@), accepting@, 0, words@[w as int]@, 0);
        while i < words[w].len()
            invariant
                w < words@.len(),
                walk(rows(edges@), accepting@, q as nat, words@[w as int]@, i as nat) == goal,
                i <= words@[w as int]@.len(),
                q < edges@.len(),
                all_below(words@, num_symbols as nat),
                (Dfa { edges, accepting, start: 0 }).wf(num_symbols as nat),
                labels.len() == edges@.len(),
                forward(edges@),
                reach(edges@, 0, words@[w as int]@.subrange(0, i as int)) == Some(q),
                forall|p: int| 0 <= p < labels.len() ==> reach(edges@, 0, #[trigger] labels[p]) == Some(p as usize),
                forall|x: Seq<usize>| #[trigger] labelled(edges@, labels, x),
                forall|p: int|
                    0 <= p < labels.len() ==> (#[trigger] accepting@[p] <==> exists|j: int|
                        0 <= j < w && #[trigger] words@[j]@ == labels[p]),
                forall|j: int| 0 <= j < w ==> (#[trigger] reach(edges@, 0, words@[j]@)) is Some,
            decreases words@[w as int]@.len() - i,
        {
            let a = words[w][i];
            assert(a < num_symbols);
            let ghost u = words@[w as int]@.subrange(0, i as int);
            assert(words@[w as int]@.subrange(0, i + 1) =~= u.push(a));
            assert(u.push(a).drop_last() =~= u);
            proof {
                lemma_next(edges@[q as int]@, a);
                assert(labelled(edges@, labels, u));
                assert forall|y: Seq<usize>| reach(edges@, 0, y) == Some(q) implies y == u by {
                    assert(labelled(edges@, labels, y));
                }
            }
            match find_edge(&edges[q], a) {
                Some(e) => {
                    assert(reach(edges@, 0, u.push(a)) == Some(edges@[q as int]@[e as int].1));
                    assert(rows(edges@)[q as int] == edges@[q as int]@);
                    q = edges[q][e].1;
                },
                None => {
                    let fresh = edges.len();
                    let ghost before = edges@;
                    let ghost acc_before = accepting@;
                    assert(rows(before)[q as int] == before[q as int]@);
                    edges.push(Vec::new());
                    accepting.push(false);
                    edges[q].push((a, fresh));
                    proof {
                        let e0 = rows(before);
                        assert(rows(edges@) =~= e0.update(q as int, e0[q as int].push((a, e0.len() as usize))).push(Seq::empty()));
                        assert(accepting@ =~= acc_before.push(false));
                        let d = Dfa { edges, accepting, start: 0 };
                        assert forall|p: int, x: int|
                            0 <= p < edges@.len() && 0 <= x < edges@[p]@.len() implies {
                                &&& (#[trigger] edges@[p]@[x]).0 < num_symbols
                                &&& edges@[p]@[x].1 < edges@.len()
                            } by {
                            if p != q && p < before.len() {
                                assert(edges@[p] == before[p]);
                            }
                        }
                        assert forall|p: int, x: int, y: int|
                            0 <= p < edges@.len() && 0 <= x < y < edges@[p]@.len() implies (
                            #[trigger] edges@[p]@[x]).0 != (#[trigger] edges@[p]@[y]).0 by {
                            if p != q && p < before.len() {
                                assert(edges@[p] == before[p]);
                            }
                        }
                        assert(targets_inside(before));
                        assert forall|p: int, x: int| 0 <= p < edges@.len() && 0 <= x < edges@[p]@.len() implies (#[trigger] edges@[p]@[x]).1 > p by {
                            if p != q && p < before.len() {
                                assert(edges@[p] == before[p]);
                            }
                        }
                        assert(forall|p: int| 0 <= p < before.len() && p != q ==> #[trigger] edges@[p]@ == before[p]@);
                        assert(labels[q as int] == u);
                        assert(reach(before, 0, u.push(a)) is None);
                        assert forall|x: Seq<usize>| #[trigger] reach(edges@, 0, x) == if x == u.push(a) {
                            Some(fresh)
                        } else {
                            reach(before, 0, x)
                        } by {
                            lemma_fresh_state(before, edges@, q, a, u, x);
                        }
                        let old_labels = labels;
                        labels = labels.push(u.push(a));
                        assert forall|p: int| 0 <= p < labels.len() implies reach(edges@, 0, #[trigger] labels[p]) == Some(p as usize) by {
                            if p < old_labels.len() {
                                assert(labels[p] == old_labels[p]);
                                if labels[p] == u.push(a) {
                                    lemma_reach_inside(before, 0, labels[p]);
                                }
                            }
                        }
                        assert(reach(edges@, 0, u.push(a)) == Some(fresh));
                        assert forall|x: Seq<usize>| #[trigger] labelled(edges@, labels, x) by {
                            assert(reach(edges@, 0, x) == if x == u.push(a) {
                                Some(fresh)
                            } else {
                                reach(before, 0, x)
                            });
                            if x != u.push(a) {
                                assert(labelled(before, old_labels, x));
                            }
                        }
                        assert forall|j: int| 0 <= j < w implies (#[trigger] reach(edges@, 0, words@[j]@)) is Some by {
                            if words@[j]@ == u.push(a) {
                                lemma_reach_inside(before, 0, words@[j]@);
                                assert(reach(before, 0, words@[j]@) is Some);
                                assert(reach(before, 0, u.push(a)) is None);
                            }
                        }
                    }
                    q = fresh;
                },
            }
            i = i + 1;
        }
        assert(words@[w as int]@.subrange(0, i as int) =~= words@[w as int]@);
        let ne = edges.len();
        let ghost acc0 = accepting@;
        proof {
            let ws = word_views(words@);
            assert(ws.subrange(0, w + 1).drop_last() =~= ws.subrange(0, w as int));
            assert(ws.subrange(0, w + 1).last() == words@[w as int]@);
        }
        assert(forall|p: int|
            0 <= p < labels.len() ==> (#[trigger] acc0[p] <==> exists|j: int|
                0 <= j < w && #[trigger] words@[j]@ == labels[p]));
        accepting.set(q, true);
        proof {
            assert(labelled(edges@, labels, words@[w as int]@));
            assert(words@[w as int]@ == labels[q as int]);
            assert forall|p: int|
                0 <= p < labels.len() implies (#[trigger] accepting@[p] <==> exists|j: int|
                    0 <= j < w + 1 && #[trigger] words@[j]@ == labels[p]) by {
                if p == q {
                    assert(words@[w as int]@ == labels[p]);
                } else {
                    assert(accepting@[p] == acc0[p]);
                    if exists|j: int| 0 <= j < w + 1 && #[trigger] words@[j]@ == labels[p] {
                        let j = choose|j: int| 0 <= j < w + 1 && #[trigger] words@[j]@ == labels[p];
                        if j == w {
                            assert(reach(edges@, 0, labels[p]) == Some(p as usize));
                            assert(reach(edges@, 0, labels[q as int]) == Some(q));
                            assert(p < ne);
                            assert(p as usize == q);
                        }
                        assert(0 <= j < w && words@[j]@ == labels[p]);
                        assert(exists|j: int| 0 <= j < w && #[trigger] words@[j]@ == labels[p]);
                        assert(acc0[p]);
                    }
                    if acc0[p] {
                        let j = choose|j: int| 0 <= j < w && #[trigger] words@[j]@ == labels[p];
                        assert(0 <= j < w + 1 && words@[j]@ == labels[p]);
                    }
                }
            }
            assert forall|j: int| 0 <= j < w + 1 implies (#[trigger] reach(edges@, 0, words@[j]@)) is Some by {
                if j == w {
                    assert(words@[w as int]@ =~= words@[w as int]@.subrange(0, i as int));
                }
            }
        }
        w = w + 1;
    }
    let d = Dfa { edges, accepting, start: 0 };
    assert(word_views(words@).subrange(0, words@.len() as int) =~= word_views(words@));
    proof {
        assert forall|x: Seq<usize>| d.accepts(x) <==> exists|j: int|
            0 <= j < words@.len() && #[trigger] words@[j]@ == x by {
            if exists|j: int| 0 <= j < words@.len() && #[trigger] words@[j]@ == x {
                let j = choose|j: int| 0 <= j < words@.len() && #[trigger] words@[j]@ == x;
                assert(reach(d.edges@, 0, words@[j]@) is Some);
                let p = reach(d.edges@, 0, x)->Some_0;
                lemma_reach_inside(d.edges@, 0, x);
                assert(labelled(d.edges@, labels, x));
                assert(x == labels[p as int]);
            }
            if d.accepts(x) {
                let p = reach(d.edges@, 0, x)->Some_0;
                assert(labelled(d.edges@, labels, x));
                assert(x == labels[p as int]);
            }
        }
    }
    d
}

/// Each edge of `rp` has an edge of `rr` with its symbol whose target is in
/// the same class.
pub open spec fn covers(rp: Seq<(usize, usize)>, rr: Seq<(usize, usize)>, class: Seq<usize>) -> bool {
    forall|i: int|
        0 <= i < rp.len() ==> exists|j: int|
            0 <= j < rr.len() && (#[trigger] rr[j]).0 == (#[trigger] rp[i]).0 && class[rp[i].1 as int]
                == class[rr[j].1 as int]
}

/// Whether each edge of `p` is matched by an edge of `r` with its symbol into
/// the same class.
fn covered(d: &Dfa, class: &Vec<usize>, p: usize, r: usize) -> (b: bool)
    requires
        p < d.edges@.len(),
        r < d.edges@.len(),
        class@.len() == d.edges@.len(),
        targets_inside(d.edges@),
        unique_symbols(d.edges@[r as int]@),
    ensures
        b == covers(d.edges@[p as int]@, d.edges@[r as int]@, class@),
{
    let mut i: usize = 0;
    while i < d.edges[p].len()
        invariant
            p < d.edges@.len(),
            r < d.edges@.len(),
            class@.len() == d.edges@.len(),
            targets_inside(d.edges@),
            i <= d.edges@[p as int]@.len(),
            covers(d.edges@[p as int]@.subrange(0, i as int), d.edges@[r as int]@, class@),
            unique_symbols(d.edges@[r as int]@),
        decreases d.edges@[p as int]@.len() - i,
    {
        let (a, t) = d.edges[p][i];
        match find_edge(&d.edges[r], a) {
            None => {
                proof {
                    let rp = d.edges@[p as int]@;
                    let rr = d.edges@[r as int]@;
                    if covers(rp, rr, class@) {
                        assert(rp[i as int].0 == a);
                        let jj = choose|jj: int| 0 <= jj < rr.len() && (#[trigger] rr[jj]).0 == (#[trigger] rp[i as int]).0 && class@[rp[i as int].1 as int] == class@[rr[jj].1 as int];
                        assert(rr[jj].0 == a);
                    }
                }
                return false;
            },
            Some(e) => {
                if class[t] != class[d.edges[r][e].1] {
                    proof {
                        let rp = d.edges@[p as int]@;
                        let rr = d.edges@[r as int]@;
                        if covers(rp, rr, class@) {
                            let jj = choose|jj: int| 0 <= jj < rr.len() && (#[trigger] rr[jj]).0 == (#[trigger] rp[i as int]).0 && class@[rp[i as int].1 as int] == class@[rr[jj].1 as int];
                            if jj != e {
                                if jj < e {
                                    assert(rr[jj].0 != rr[e as int].0);
                                } else {
                                    assert(rr[e as int].0 != rr[jj].0);
                                }
                            }
                        }
                    }
                    return false;
                }
                proof {
                    let rp = d.edges@[p as int]@;
                    let rr = d.edges@[r as int]@;
                    let old_sub = rp.subrange(0, i as int);
                    let sub = rp.subrange(0, i + 1);
                    assert forall|k: int| 0 <= k < sub.len() implies exists|j: int|
                        0 <= j < rr.len() && (#[trigger] rr[j]).0 == (#[trigger] sub[k]).0 && class@[sub[k].1 as int]
                            == class@[rr[j].1 as int] by {
                        if k < i {
                            assert(sub[k] == old_sub[k]);
                            let j = choose|j: int|
                                0 <= j < rr.len() && (#[trigger] rr[j]).0 == (#[trigger] old_sub[k]).0
                                    && class@[old_sub[k].1 as int] == class@[rr[j].1 as int];
                            assert(rr[j].0 == sub[k].0);
                        } else {
                            assert(sub[k] == rp[i as int]);
                            assert(rr[e as int].0 == sub[k].0);
                        }
                    }
                }
            },
        }
        i = i + 1;
    }
    assert(d.edges@[p as int]@.subrange(0, i as int) =~= d.edges@[p as int]@);
    true
}

/// Whether `p` and `r` agree on acceptance and, symbol by symbol, lead into
/// the same classes.
fn equivalent(d: &Dfa, class: &Vec<usize>, p: usize, r: usize) -> (b: bool)
    requires
        p < d.edges@.len(),
        r < d.edges@.len(),
        d.accepting@.len() == d.edges@.len(),
        class@.len() == d.edges@.len(),
        targets_inside(d.edges@),
        unique_symbols(d.edges@[p as int]@),
        unique_symbols(d.edges@[r as int]@),
    ensures
        b == (d.accepting@[p as int] == d.accepting@[r as int] && covers(
            d.edges@[p as int]@,
            d.edges@[r as int]@,
            class@,
        ) && covers(d.edges@[r as int]@, d.edges@[p as int]@, class@)),
{
    d.accepting[p] == d.accepting[r] && covered(d, class, p, r) && covered(d, class, r, p)
}

/// Two states that agree on acceptance and whose edges match symbol by
/// symbol into targets with the same words accept the same words.
proof fn lemma_same_lang(
    edges: Seq<Vec<(usize, usize)>>,
    acc: Seq<bool>,
    class: Seq<usize>,
    p: usize,
    r: usize,
    x: Seq<usize>,
)
    requires
        p < edges.len(),
        r < edges.len(),
        acc.len() == edges.len(),
        p < acc.len() && r < acc.len() && acc[p as int] == acc[r as int],
        unique_symbols(edges[p as int]@),
        unique_symbols(edges[r as int]@),
        covers(edges[p as int]@, edges[r as int]@, class),
        covers(edges[r as int]@, edges[p as int]@, class),
        forall|i: int, j: int|
            0 <= i < edges[p as int]@.len() && 0 <= j < edges[r as int]@.len() && class[edges[p as int]@[i].1 as int]
                == class[edges[r as int]@[j].1 as int] ==> forall|y: Seq<usize>|
                lang(edges, acc, #[trigger] edges[p as int]@[i].1, y) == lang(
                    edges,
                    acc,
                    #[trigger] edges[r as int]@[j].1,
                    y,
                ),
    ensures
        lang(edges, acc, p, x) == lang(edges, acc, r, x),
{
    if x.len() > 0 {
        let a = x[0];
        let rp = edges[p as int]@;
        let rr = edges[r as int]@;
        lemma_lang_first(edges, acc, p, x);
        lemma_lang_first(edges, acc, r, x);
        lemma_next(rp, a);
        lemma_next(rr, a);
        if exists|i: int| 0 <= i < rp.len() && (#[trigger] rp[i]).0 == a {
            let i = choose|i: int| 0 <= i < rp.len() && (#[trigger] rp[i]).0 == a;
            let j = choose|j: int|
                0 <= j < rr.len() && (#[trigger] rr[j]).0 == (#[trigger] rp[i]).0 && class[rp[i].1 as int]
                    == class[rr[j].1 as int];
            assert(lang(edges, acc, rp[i].1, x.drop_first()) == lang(edges, acc, rr[j].1, x.drop_first()));
        } else if exists|j: int| 0 <= j < rr.len() && (#[trigger] rr[j]).0 == a {
            let j = choose|j: int| 0 <= j < rr.len() && (#[trigger] rr[j]).0 == a;
            let i = choose|i: int|
                0 <= i < rp.len() && (#[trigger] rp[i]).0 == (#[trigger] rr[j]).0 && class[rr[j].1 as int]
                    == class[rp[i].1 as int];
            assert(false);
        }
    }
}

pub open spec fn equiv_spec(e: Seq<Seq<(usize, usize)>>, acc: Seq<bool>, class: Seq<usize>, p: nat, r: nat) -> bool {
    acc[p as int] == acc[r as int] && covers(e[p as int], e[r as int], class) && covers(e[r as int], e[p as int], class)
}

/// The first class from `c` on whose representative agrees with `q`, or the
/// number of classes where none does.
pub open spec fn find_class(
    e: Seq<Seq<(usize, usize)>>,
    acc: Seq<bool>,
    class: Seq<usize>,
    reps: Seq<usize>,
    q: nat,
    c: nat,
) -> nat
    decreases reps.len() - c,
{
    if c >= reps.len() {
        reps.len()
    } else if equiv_spec(e, acc, class, q, reps[c as int] as nat) {
        c
    } else {
        find_class(e, acc, class, reps, q, c + 1)
    }
}

/// The classes and representatives once the states below `q` are visited
/// too, the last first.
pub open spec fn assign(
    e: Seq<Seq<(usize, usize)>>,
    acc: Seq<bool>,
    class: Seq<usize>,
    reps: Seq<usize>,
    q: nat,
) -> (Seq<usize>, Seq<usize>)
    decreases q,
{
    if q == 0 {
        (class, reps)
    } else {
        let q1 = (q - 1) as nat;
        let c = find_class(e, acc, class, reps, q1, 0);
        let reps2 = if c == reps.len() {
            reps.push(q1 as usize)
        } else {
            reps
        };
        assign(e, acc, class.update(q1 as int, c as usize), reps2, q1)
    }
}

/// The rows, acceptance and start of the merged automaton.
pub open spec fn min_spec(e: Seq<Seq<(usize, usize)>>, acc: Seq<bool>, start: usize) -> (Seq<Seq<(usize, usize)>>, Seq<bool>, usize) {
    let (class, reps) = assign(e, acc, Seq::new(e.len(), |i: int| 0usize), Seq::empty(), e.len());
    let c = reps.len() as int;
    (
        Seq::new(
            reps.len(),
            |i: int| e[reps[c - 1 - i] as int].map_values(|x: (usize, usize)| (x.0, (c - 1 - class[x.1 as int]) as usize)),
        ),
        Seq::new(reps.len(), |i: int| acc[reps[c - 1 - i] as int]),
        (c - 1 - class[start as int]) as usize,
    )
}

/// Merges the states that accept the same words. Every edge leads to a later
/// state, so the states are visited from the last to the first and the classes
/// of a state's targets are known when it is visited: it joins the first class
/// whose representative agrees with it on acceptance and on the classes its
/// edges lead into, or founds a class of its own. This refinement merges every
/// two states that accept the same words, which gives the minimal automaton.
/// The contract states that the words accepted stay the same, and that the
/// result is the one `min_spec` describes. The classes are numbered back to
/// front, so that edges still lead forward.
#[verifier::spinoff_prover]
#[verifier::rlimit(60)]
pub fn minimize(d: &Dfa, num_symbols: Ghost<nat>) -> (m: Dfa)
    requires
        d.wf(num_symbols@),
        forward(d.edges@),
    ensures
        m.wf(num_symbols@),
        m.num_states() <= d.num_states(),
        forward(m.edges@),
        forall|x: Seq<usize>| #[trigger] m.accepts(x) == d.accepts(x),
        (rows(m.edges@), m.accepting@, m.start) == min_spec(rows(d.edges@), d.accepting@, d.start),
{
    let ghost e = d.edges@;
    let ghost acc = d.accepting@;
    let n = d.edges.len();
    let mut class: Vec<usize> = Vec::new();
    while class.len() < n
        invariant
            class@.len() <= n,
            forall|i: int| 0 <= i < class@.len() ==> #[trigger] class@[i] == 0,
        decreases n - class@.len(),
    {
        class.push(0);
    }
    let mut reps: Vec<usize> = Vec::new();
    let mut q: usize = n;
    let ghost re = rows(e);
    let ghost goal = assign(re, acc, Seq::new(n as nat, |i: int| 0usize), Seq::empty(), n as nat);
    assert(class@ =~= Seq::new(n as nat, |i: int| 0usize));
    assert(reps@ =~= Seq::<usize>::empty());
    while q > 0
        invariant
            q <= n,
            n == d.edges@.len(),
            e == d.edges@,
            acc == d.accepting@,
            d.wf(num_symbols@),
            forward(e),
            class@.len() == n,
            reps@.len() <= n - q,
            forall|s: int| q <= s < n ==> #[trigger] class@[s] < reps@.len(),
            forall|c: int| 0 <= c < reps@.len() ==> q <= #[trigger] reps@[c] < n && class@[reps@[c] as int] == c,
            forall|s: usize, y: Seq<usize>| q <= s < n ==> #[trigger] rep_agrees(e, acc, reps@, class@, s, y),
            forall|s: int, i: int|
                q <= s < n && 0 <= i < e[s]@.len() ==> class@[(#[trigger] e[s]@[i]).1 as int] < class@[s],
            re == rows(e),
            assign(re, acc, class@, reps@, q as nat) == goal,
        decreases q,
    {
        q = q - 1;
        let mut c: usize = 0;
        assert(unique_symbols(e[q as int]@));
        while c < reps.len() && !equivalent(d, &class, q, reps[c])
            invariant
                c <= reps@.len(),
                e == d.edges@,
                acc == d.accepting@,
                re == rows(e),
                find_class(re, acc, class@, reps@, q as nat, c as nat) == find_class(re, acc, class@, reps@, q as nat, 0),
                q < n,
                n == d.edges@.len(),
                d.wf(num_symbols@),
                class@.len() == n,
                forall|c: int| 0 <= c < reps@.len() ==> #[trigger] reps@[c] < n,
            decreases reps@.len() - c,
        {
            proof {
                assert(re[q as int] == e[q as int]@);
                assert(re[reps@[c as int] as int] == e[reps@[c as int] as int]@);
                assert(!equiv_spec(re, acc, class@, q as nat, reps@[c as int] as nat));
            }
            c = c + 1;
        }
        let ghost old_class = class@;
        let ghost old_reps = reps@;
        proof {
            if c < reps@.len() {
                assert(re[q as int] == e[q as int]@);
                assert(re[reps@[c as int] as int] == e[reps@[c as int] as int]@);
                assert(equiv_spec(re, acc, class@, q as nat, reps@[c as int] as nat));
            }
            assert(c as nat == find_class(re, acc, class@, reps@, q as nat, 0));
        }
        if c == reps.len() {
            reps.push(q);
        } else {
            proof {
                let r = reps@[c as int];
                let rq = e[q as int]@;
                let rr = e[r as int]@;
                assert forall|i: int, j: int|
                    0 <= i < rq.len() && 0 <= j < rr.len() && old_class[rq[i].1 as int] == old_class[rr[j].1 as int]
                        implies forall|y: Seq<usize>|
                    lang(e, acc, #[trigger] rq[i].1, y) == lang(e, acc, #[trigger] rr[j].1, y) by {
                    let t = rq[i].1;
                    let u = rr[j].1;
                    assert(t > q);
                    assert(u > r);
                    assert forall|y: Seq<usize>| lang(e, acc, t, y) == lang(e, acc, u, y) by {
                        assert(rep_agrees(e, acc, reps@, old_class, t, y));
                        assert(rep_agrees(e, acc, reps@, old_class, u, y));
                    }
                }
                assert forall|y: Seq<usize>| lang(e, acc, q, y) == lang(e, acc, r, y) by {
                    lemma_same_lang(e, acc, old_class, q, r, y);
                }
            }
        }
        class.set(q, c);
        proof {
            assert(class@ =~= old_class.update(q as int, c));
            assert(assign(re, acc, old_class, old_reps, (q + 1) as nat) == assign(re, acc, class@, reps@, q as nat));
            assert forall|s: int, i: int|
                q <= s < n && 0 <= i < e[s]@.len() implies class@[(#[trigger] e[s]@[i]).1 as int] < class@[s] by {
                let t = e[s]@[i].1;
                assert(t > s);
                if s == q {
                    if c < old_reps.len() {
                        let r = old_reps[c as int];
                        let j = choose|j: int|
                            0 <= j < e[r as int]@.len() && (#[trigger] e[r as int]@[j]).0 == (#[trigger] e[q as int]@[i]).0
                                && old_class[e[q as int]@[i].1 as int] == old_class[e[r as int]@[j].1 as int];
                        assert(old_class[e[r as int]@[j].1 as int] < old_class[r as int]);
                    }
                } else {
                    assert(old_class[t as int] < old_class[s]);
                }
            }
            assert forall|s: usize, y: Seq<usize>| q <= s < n implies #[trigger] rep_agrees(e, acc, reps@, class@, s, y) by {
                if s > q {
                    assert(rep_agrees(e, acc, old_reps, old_class, s, y));
                    assert(class@[s as int] == old_class[s as int]);
                    assert(old_class[s as int] < old_reps.len());
                    assert(reps@[old_class[s as int] as int] == old_reps[old_class[s as int] as int]);
                }
            }
            assert forall|k: int| 0 <= k < reps@.len() implies q <= #[trigger] reps@[k] < n && class@[reps@[k] as int] == k by {
                if k < old_reps.len() {
                    assert(reps@[k] == old_reps[k]);
                }
            }
        }
    }
    let big_c = reps.len();
    let mut edges: Vec<Vec<(usize, usize)>> = Vec::new();
    let mut accepting: Vec<bool> = Vec::new();
    let mut c: usize = 0;
    while c < reps.len()
        invariant
            c <= reps@.len(),
            big_c == reps@.len(),
            reps@.len() <= n,
            n == d.edges@.len(),
            e == d.edges@,
            acc == d.accepting@,
            d.wf(num_symbols@),
            class@.len() == n,
            forall|s: int| 0 <= s < n ==> #[trigger] class@[s] < reps@.len(),
            forall|c: int| 0 <= c < reps@.len() ==> #[trigger] reps@[c] < n,
            edges@.len() == c,
            accepting@.len() == c,
            forall|p: int| 0 <= p < c ==> #[trigger] mapped_row(edges@[p]@, e[reps@[big_c - 1 - p] as int]@, class@, big_c as int),
            forall|p: int| 0 <= p < c ==> #[trigger] accepting@[p] == acc[reps@[big_c - 1 - p] as int],
            forall|s: int, i: int|
                0 <= s < n && 0 <= i < e[s]@.len() ==> class@[(#[trigger] e[s]@[i]).1 as int] < class@[s],
            forall|c: int| 0 <= c < reps@.len() ==> class@[#[trigger] reps@[c] as int] == c,
            forall|p: int, i: int|
                0 <= p < c && 0 <= i < edges@[p]@.len() ==> {
                    &&& (#[trigger] edges@[p]@[i]).0 < num_symbols@
                    &&& edges@[p]@[i].1 < reps@.len()
                },
            forall|p: int, i: int, j: int|
                0 <= p < c && 0 <= i < j < edges@[p]@.len() ==> (#[trigger] edges@[p]@[i]).0 != (
                #[trigger] edges@[p]@[j]).0,
        decreases reps@.len() - c,
    {
        let r = reps[reps.len() - 1 - c];
        let mut row: Vec<(usize, usize)> = Vec::new();
        let mut i: usize = 0;
        while i < d.edges[r].len()
            invariant
                r < n,
                n == d.edges@.len(),
                big_c == reps@.len(),
                d.wf(num_symbols@),
                class@.len() == n,
                forall|s: int| 0 <= s < n ==> #[trigger] class@[s] < reps@.len(),
                i <= d.edges@[r as int]@.len(),
                row@.len() == i,
                mapped_row(row@, d.edges@[r as int]@.subrange(0, i as int), class@, big_c as int),
            decreases d.edges@[r as int]@.len() - i,
        {
            let (a, t) = d.edges[r][i];
            let ct = class[t];
            assert(ct < reps@.len());
            row.push((a, reps.len() - 1 - ct));
            i = i + 1;
            proof {
                let sub = d.edges@[r as int]@.subrange(0, i as int);
                assert forall|k: int| 0 <= k < row@.len() implies (#[trigger] row@[k]).0 == sub[k].0 && row@[k].1 == big_c - 1 - class@[sub[k].1 as int] by {
                    if k < i - 1 {
                        assert(sub[k] == d.edges@[r as int]@.subrange(0, i - 1)[k]);
                    }
                }
            }
        }
        proof {
            assert(d.edges@[r as int]@.subrange(0, i as int) =~= d.edges@[r as int]@);
            assert forall|x: int, y: int| 0 <= x < y < row@.len() implies (#[trigger] row@[x]).0 != (
            #[trigger] row@[y]).0 by {
                assert(d.edges@[r as int]@[x].0 != d.edges@[r as int]@[y].0);
            }
            assert forall|k: int| 0 <= k < row@.len() implies (#[trigger] row@[k]).0 < num_symbols@ by {
                assert(d.edges@[r as int]@[k].0 < num_symbols@);
            }
        }
        edges.push(row);
        accepting.push(d.accepting[r]);
        c = c + 1;
    }
    let cs = class[d.start];
    assert(cs < reps@.len());
    let start = reps.len() - 1 - cs;
    let m = Dfa { edges, accepting, start };
    proof {
        assert forall|p: int, i: int| 0 <= p < m.edges@.len() && 0 <= i < m.edges@[p]@.len() implies (#[trigger] m.edges@[p]@[i]).1 > p by {
            let r = reps@[big_c - 1 - p];
            assert(mapped_row(m.edges@[p]@, e[r as int]@, class@, big_c as int));
            assert(class@[e[r as int]@[i].1 as int] < class@[r as int]);
        }
        assert forall|x: Seq<usize>| #[trigger] m.accepts(x) == d.accepts(x) by {
            lemma_min_lang(e, acc, m.edges@, m.accepting@, reps@, class@, start, x);
            assert(reps@[big_c - 1 - start] == reps@[cs as int]);
            assert(rep_agrees(e, acc, reps@, class@, d.start, x));
        }
    }
    proof {
        assert(assign(re, acc, class@, reps@, 0) == (class@, reps@));
        assert(re.len() == n);
        let cc = big_c as int;
        let want = Seq::new(
            big_c as nat,
            |i: int| re[reps@[cc - 1 - i] as int].map_values(|x: (usize, usize)| (x.0, (cc - 1 - class@[x.1 as int]) as usize)),
        );
        assert forall|i: int| 0 <= i < big_c implies #[trigger] rows(m.edges@)[i] == want[i] by {
            let r = reps@[cc - 1 - i];
            assert(mapped_row(m.edges@[i]@, e[r as int]@, class@, cc));
            assert(re[r as int] == e[r as int]@);
            assert forall|k: int| 0 <= k < m.edges@[i]@.len() implies m.edges@[i]@[k] == want[i][k] by {
                assert(class@[e[r as int]@[k].1 as int] < big_c);
            }
            assert(rows(m.edges@)[i] =~= want[i]);
        }
        assert(rows(m.edges@) =~= want);
        assert(m.accepting@ =~= Seq::new(big_c as nat, |i: int| acc[reps@[cc - 1 - i] as int]));
    }
    m
}

/// State `s` accepts the same words as the representative of its class.
pub open spec fn rep_agrees(
    e: Seq<Vec<(usize, usize)>>,
    acc: Seq<bool>,
    reps: Seq<usize>,
    class: Seq<usize>,
    s: usize,
    y: Seq<usize>,
) -> bool {
    lang(e, acc, s, y) == lang(e, acc, reps[class[s as int] as int], y)
}

/// `rm` is `rd` with each target replaced by the number of its class,
/// counted from the back.
pub open spec fn mapped_row(rm: Seq<(usize, usize)>, rd: Seq<(usize, usize)>, class: Seq<usize>, big_c: int) -> bool {
    &&& rm.len() == rd.len()
    &&& forall|k: int|
        0 <= k < rm.len() ==> (#[trigger] rm[k]).0 == rd[k].0 && rm[k].1 == big_c - 1 - class[rd[k].1 as int]
}

proof fn lemma_next_mapped(rm: Seq<(usize, usize)>, rd: Seq<(usize, usize)>, class: Seq<usize>, big_c: int, a: usize)
    requires
        mapped_row(rm, rd, class, big_c),
    ensures
        next(rm, a) == match next(rd, a) {
            Some(t) => Some((big_c - 1 - class[t as int]) as usize),
            None => None,
        },
    decreases rd.len(),
{
    if rd.len() > 0 {
        let (im, id) = (rm.drop_last(), rd.drop_last());
        assert forall|k: int| 0 <= k < im.len() implies (#[trigger] im[k]).0 == id[k].0 && im[k].1 == big_c - 1 - class[id[k].1 as int] by {
            assert(im[k] == rm[k] && id[k] == rd[k]);
        }
        lemma_next_mapped(im, id, class, big_c, a);
        assert(rm.last() == rm[rm.len() - 1]);
    }
}

proof fn lemma_min_lang(
    e: Seq<Vec<(usize, usize)>>,
    acc: Seq<bool>,
    em: Seq<Vec<(usize, usize)>>,
    accm: Seq<bool>,
    reps: Seq<usize>,
    class: Seq<usize>,
    i: usize,
    x: Seq<usize>,
)
    requires
        i < reps.len(),
        reps.len() <= usize::MAX,
        em.len() == reps.len(),
        accm.len() == reps.len(),
        acc.len() == e.len(),
        class.len() == e.len(),
        targets_inside(e),
        forall|s: int| 0 <= s < e.len() ==> #[trigger] class[s] < reps.len(),
        forall|c: int| 0 <= c < reps.len() ==> #[trigger] reps[c] < e.len(),
        forall|p: int| 0 <= p < reps.len() ==> #[trigger] mapped_row(em[p]@, e[reps[reps.len() - 1 - p] as int]@, class, reps.len() as int),
        forall|p: int| 0 <= p < reps.len() ==> #[trigger] accm[p] == acc[reps[reps.len() - 1 - p] as int],
        forall|s: usize, y: Seq<usize>| 0 <= s < e.len() ==> #[trigger] rep_agrees(e, acc, reps, class, s, y),
    ensures
        lang(em, accm, i, x) == lang(e, acc, reps[reps.len() - 1 - i], x),
    decreases x.len(),
{
    let big_c = reps.len() as int;
    let r = reps[big_c - 1 - i];
    if x.len() == 0 {
        assert(accm[i as int] == acc[r as int]);
    } else {
        let a = x[0];
        let y = x.drop_first();
        lemma_lang_first(em, accm, i, x);
        lemma_lang_first(e, acc, r, x);
        assert(mapped_row(em[i as int]@, e[r as int]@, class, big_c));
        lemma_next_mapped(em[i as int]@, e[r as int]@, class, big_c, a);
        assert forall|k: int| 0 <= k < e[r as int]@.len() implies (#[trigger] e[r as int]@[k]).1 < e.len() by {}
        lemma_next_inside(e[r as int]@, a, e.len());
        match next(e[r as int]@, a) {
            Some(t) => {
                assert(t < e.len());
                assert(class[t as int] < reps.len());
                let tm = (big_c - 1 - class[t as int]) as usize;
                lemma_min_lang(e, acc, em, accm, reps, class, tm, y);
                assert(reps[big_c - 1 - tm] == reps[class[t as int] as int]);
                assert(rep_agrees(e, acc, reps, class, t, y));
            },
            None => {},
        }
    }
}

/// The minimal automaton of the words: it accepts a word exactly when the word
/// is one of them.
pub fn minimal_automaton(words: &Vec<Vec<usize>>, num_symbols: usize) -> (d: Dfa)
    requires
        all_below(words@, num_symbols as nat),
    ensures
        d.wf(num_symbols as nat),
        forward(d.edges@),
        forall|x: Seq<usize>| #[trigger] d.accepts(x) <==> exists|j: int| 0 <= j < words@.len() && words@[j]@ == x,
        (rows(d.edges@), d.accepting@, d.start) == min_spec(
            trie_spec(word_views(words@)).0,
            trie_spec(word_views(words@)).1,
            0,
        ),
{
    let t = trie(words, num_symbols);
    let m = minimize(&t, Ghost(num_symbols as nat));
    assert forall|x: Seq<usize>| #[trigger] m.accepts(x) <==> exists|j: int| 0 <= j < words@.len() && words@[j]@ == x by {
        assert(m.accepts(x) == t.accepts(x));
        if exists|j: int| 0 <= j < words@.len() && words@[j]@ == x {
            let j = choose|j: int| 0 <= j < words@.len() && words@[j]@ == x;
            assert(words@[j]@ == x);
        }
    }
    m
}

} // verus!
