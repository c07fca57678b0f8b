//! Folding runs of a repeated sequence of symbols into one bounded repetition.
//!
//! At each position the run that covers the most symbols wins; among runs of
//! equal cover the one with the shorter unit wins. The scan then goes on after
//! the run. This greedy scan does not always find the shortest encoding where
//! candidate runs overlap.

use crate::grapheme::flatten;
use crate::text::Symbol;
use vstd::prelude::*;

verus! {

/// `count` copies of the `len` symbols that start at `start`.
#[derive(Clone, Copy, Debug, PartialEq, Eq, Structural)]
pub struct Run {
    pub start: usize,
    pub len: usize,
    pub count: usize,
}

pub open spec fn texts(s: Seq<(Seq<char>, bool)>) -> Seq<Seq<char>> {
    s.map_values(|x: (Seq<char>, bool)| x.0)
}

pub open spec fn symbol_views(s: Seq<Symbol>) -> Seq<(Seq<char>, bool)> {
    s.map_values(|x: Symbol| x@)
}

pub open spec fn run_end(r: Run) -> int {
    r.start + r.len * r.count
}

/// The symbols of the run are `count` copies of its unit: each symbol after
/// the first copy equals the one a unit before it.
pub open spec fn periodic(s: Seq<(Seq<char>, bool)>, r: Run) -> bool {
    forall|p: int| r.start + r.len <= p < run_end(r) ==> #[trigger] s[p] == s[p - r.len]
}

/// `k` copies of the unit at `start` follow one another there, and no
/// further copy follows them.
pub open spec fn most_copies(s: Seq<(Seq<char>, bool)>, start: usize, len: usize, k: usize) -> bool {
    &&& k >= 1
    &&& start + len * k <= s.len()
    &&& periodic(s, Run { start, len, count: k })
    &&& !(start + len * (k + 1) <= s.len() && periodic(s, Run { start, len, count: (k + 1) as usize }))
}

/// The greedy choice at the start of `r`: among the units that repeat there,
/// the one whose run covers the most symbols, the shorter among equals; the
/// symbol alone where no unit repeats.
pub open spec fn greedy(s: Seq<(Seq<char>, bool)>, r: Run) -> bool {
    &&& r.count >= 2 ==> most_copies(s, r.start, r.len, r.count)
    &&& forall|l: usize, k: usize|
        1 <= l && r.start + 2 * l <= s.len() && #[trigger] most_copies(s, r.start, l, k) && k >= 2 ==> l * k < r.len
            * r.count || (l * k == r.len * r.count && l >= r.len)
}

/// The runs cut `s.subrange(0, end)` into consecutive pieces, each a
/// repetition of its unit, and a run of one copy holds one symbol.
pub open spec fn tiles(s: Seq<(Seq<char>, bool)>, runs: Seq<Run>, end: int) -> bool {
    &&& runs.len() == 0 ==> end == 0
    &&& runs.len() > 0 ==> runs[0].start == 0 && run_end(runs.last()) == end
    &&& forall|k: int| 0 <= k < runs.len() - 1 ==> #[trigger] runs[k + 1].start == run_end(runs[k])
    &&& forall|k: int|
        0 <= k < runs.len() ==> {
            let r = #[trigger] runs[k];
            &&& r.len >= 1 && r.count >= 1
            &&& r.count == 1 ==> r.len == 1
            &&& run_end(r) <= end
            &&& periodic(s, r)
        }
}

/// The runs tile `s`, each chosen greedily at its start.
pub open spec fn plans(s: Seq<(Seq<char>, bool)>, runs: Seq<Run>) -> bool {
    &&& tiles(s, runs, s.len() as int)
    &&& forall|k: int| 0 <= k < runs.len() ==> greedy(s, #[trigger] runs[k])
}

proof fn lemma_copies_unique(s: Seq<(Seq<char>, bool)>, start: usize, len: usize, k1: usize, k2: usize)
    requires
        len >= 1,
        most_copies(s, start, len, k1),
        most_copies(s, start, len, k2),
    ensures
        k1 == k2,
{
    if k1 < k2 {
        assert(len * (k1 + 1) <= len * k2) by (nonlinear_arith)
            requires
                k1 + 1 <= k2,
        ;
        assert(periodic(s, Run { start, len, count: (k1 + 1) as usize }));
    } else if k2 < k1 {
        assert(len * (k2 + 1) <= len * k1) by (nonlinear_arith)
            requires
                k2 + 1 <= k1,
        ;
        assert(periodic(s, Run { start, len, count: (k2 + 1) as usize }));
    }
}

/// At a given start the greedy choice is one run.
proof fn lemma_greedy_unique(s: Seq<(Seq<char>, bool)>, r1: Run, r2: Run)
    requires
        r1.start == r2.start,
        r1.len >= 1 && r1.count >= 1 && (r1.count == 1 ==> r1.len == 1) && run_end(r1) <= s.len(),
        r2.len >= 1 && r2.count >= 1 && (r2.count == 1 ==> r2.len == 1) && run_end(r2) <= s.len(),
        greedy(s, r1),
        greedy(s, r2),
    ensures
        r1 == r2,
{
    if r1.count >= 2 {
        assert(r1.start + 2 * r1.len <= s.len()) by (nonlinear_arith)
            requires
                r1.count >= 2,
                r1.start + r1.len * r1.count <= s.len(),
        ;
        assert(most_copies(s, r1.start, r1.len, r1.count));
    }
    if r2.count >= 2 {
        assert(r2.start + 2 * r2.len <= s.len()) by (nonlinear_arith)
            requires
                r2.count >= 2,
                r2.start + r2.len * r2.count <= s.len(),
        ;
        assert(most_copies(s, r2.start, r2.len, r2.count));
    }
    if r1.count >= 2 && r2.count >= 2 {
        assert(most_copies(s, r1.start, r2.len, r2.count));
        assert(most_copies(s, r2.start, r1.len, r1.count));
        assert(r2.len * r2.count < r1.len * r1.count || (r2.len * r2.count == r1.len * r1.count && r2.len >= r1.len));
        assert(r1.len * r1.count < r2.len * r2.count || (r1.len * r1.count == r2.len * r2.count && r1.len >= r2.len));
        assert(r1.len == r2.len);
        lemma_copies_unique(s, r1.start, r1.len, r1.count, r2.count);
    } else if r1.count >= 2 {
        assert(r1.len * r1.count >= 2) by (nonlinear_arith)
            requires
                r1.len >= 1,
                r1.count >= 2,
        ;
        assert(most_copies(s, r2.start, r1.len, r1.count));
        assert(r2.len * r2.count == 1) by (nonlinear_arith)
            requires
                r2.len == 1,
                r2.count == 1,
        ;
    } else if r2.count >= 2 {
        assert(r2.len * r2.count >= 2) by (nonlinear_arith)
            requires
                r2.len >= 1,
                r2.count >= 2,
        ;
        assert(most_copies(s, r1.start, r2.len, r2.count));
        assert(r1.len * r1.count == 1) by (nonlinear_arith)
            requires
                r1.len == 1,
                r1.count == 1,
        ;
    }
}

proof fn lemma_plans_prefix(s: Seq<(Seq<char>, bool)>, a: Seq<Run>, b: Seq<Run>, k: int)
    requires
        plans(s, a),
        plans(s, b),
        0 <= k <= a.len(),
        k <= b.len(),
    ensures
        forall|j: int| 0 <= j < k ==> a[j] == b[j],
    decreases k,
{
    if k > 0 {
        lemma_plans_prefix(s, a, b, k - 1);
        let j = k - 1;
        if j > 0 {
            assert(a[(j - 1) + 1].start == run_end(a[j - 1]));
            assert(b[(j - 1) + 1].start == run_end(b[j - 1]));
        }
        assert(greedy(s, a[j]));
        assert(greedy(s, b[j]));
        lemma_greedy_unique(s, a[j], b[j]);
    }
}

/// The greedy plan of a sequence of symbols is unique.
pub proof fn lemma_plans_unique(s: Seq<(Seq<char>, bool)>, a: Seq<Run>, b: Seq<Run>)
    requires
        plans(s, a),
        plans(s, b),
    ensures
        a == b,
{
    if a.len() <= b.len() {
        lemma_plans_prefix(s, a, b, a.len() as int);
        if a.len() < b.len() {
            let k = a.len() as int;
            if k > 0 {
                assert(b[(k - 1) + 1].start == run_end(b[k - 1]));
                assert(a.last() == a[k - 1]);
            }
            assert(b[k].len * b[k].count >= 1) by (nonlinear_arith)
                requires
                    b[k].len >= 1,
                    b[k].count >= 1,
            ;
        }
    } else {
        lemma_plans_prefix(s, a, b, b.len() as int);
        let k = b.len() as int;
        if k > 0 {
            assert(a[(k - 1) + 1].start == run_end(a[k - 1]));
            assert(b.last() == b[k - 1]);
        }
        assert(a[k].len * a[k].count >= 1) by (nonlinear_arith)
            requires
                a[k].len >= 1,
                a[k].count >= 1,
        ;
    }
    assert(a =~= b);
}

/// Decimal digits of `n`, without leading zeros.
pub open spec fn dec_digits(n: nat) -> Seq<char>
    decreases n,
{
    let d = seq!['0', '1', '2', '3', '4', '5', '6', '7', '8', '9'][(n % 10) as int];
    if n < 10 {
        seq![d]
    } else {
        dec_digits(n / 10) + seq![d]
    }
}

/// The symbol that a run stands for: the symbol itself for one copy, else the
/// unit, in parentheses where it is more than one quantifiable symbol,
/// followed by `{count}`.
pub open spec fn run_symbol(s: Seq<(Seq<char>, bool)>, r: Run) -> (Seq<char>, bool) {
    if r.count == 1 {
        s[r.start as int]
    } else {
        let unit = flatten(texts(s.subrange(r.start as int, r.start + r.len)));
        let body = if r.len == 1 && s[r.start as int].1 {
            unit
        } else {
            seq!['('] + unit + seq![')']
        };
        (body + seq!['{'] + dec_digits(r.count as nat) + seq!['}'], false)
    }
}

pub(crate) fn same_symbol(a: &Symbol, b: &Symbol) -> (r: bool)
    ensures
        r == (a@ == b@),
{
    if a.single != b.single || a.text.len() != b.text.len() {
        return false;
    }
    let mut i: usize = 0;
    while i < a.text.len()
        invariant
            a.text@.len() == b.text@.len(),
            i <= a.text@.len(),
            forall|k: int| 0 <= k < i ==> a.text@[k] == b.text@[k],
        decreases a.text@.len() - i,
    {
        if a.text[i] != b.text[i] {
            return false;
        }
        i = i + 1;
    }
    assert(a.text@ =~= b.text@);
    true
}

/// How many copies of the `len` symbols at `start` follow one another there.
fn copies(s: &Vec<Symbol>, start: usize, len: usize) -> (k: usize)
    requires
        len >= 1,
        start + len <= s@.len(),
    ensures
        k >= 1,
        start + len * k <= s@.len(),
        periodic(symbol_views(s@), Run { start, len, count: k }),
        most_copies(symbol_views(s@), start, len, k),
{
    let ghost v = symbol_views(s@);
    let ghost mut miss: int = 0;
    let n = s.len();
    let mut k: usize = 1;
    let mut end: usize = start + len;
    let mut more = true;
    while more && len <= s.len() - end
        invariant
            len >= 1,
            k >= 1,
            end == start + len * k,
            end >= start + len,
            k <= end,
            end <= s@.len(),
            n == s@.len(),
            v == symbol_views(s@),
            forall|p: int| start + len <= p < end ==> #[trigger] v[p] == v[p - len],
            !more ==> end <= miss < end + len && end + len <= s@.len() && v[miss] != v[miss - len],
        decreases s@.len() - end + (if more { 1int } else { 0int }),
    {
        let mut j: usize = 0;
        while j < len && same_symbol(&s[end + j], &s[end + j - len])
            invariant
                j <= len,
                end + len <= s@.len(),
                n == s@.len(),
                end >= len,
                v == symbol_views(s@),
                forall|u: int| 0 <= u < j ==> #[trigger] v[end + u] == v[end + u - len],
            decreases len - j,
        {
            j = j + 1;
        }
        if j < len {
            proof {
                miss = end + j;
                assert(s@[end + j]@ == v[end + j]);
                assert(s@[end + j - len]@ == v[end + j - len]);
            }
            more = false;
        } else {
            assert forall|p: int| start + len <= p < end + len implies #[trigger] v[p] == v[p - len] by {
                if p >= end {
                    assert(v[end + (p - end)] == v[end + (p - end) - len]);
                }
            }
            assert(len * (k + 1) == len * k + len) by (nonlinear_arith);
            end = end + len;
            k = k + 1;
        }
    }
    proof {
        assert(len * (k + 1) == len * k + len) by (nonlinear_arith);
        if start + len * (k + 1) <= v.len() && periodic(v, Run { start, len, count: (k + 1) as usize }) {
            assert(!more);
            assert(v[miss] == v[miss - len]);
        }
    }
    k
}

/// Cuts the symbols into runs: at each position the run that covers the most
/// symbols, the shorter unit among equals, or the symbol alone.
pub fn plan(s: &Vec<Symbol>) -> (runs: Vec<Run>)
    ensures
        plans(symbol_views(s@), runs@),
{
    let ghost v = symbol_views(s@);
    let mut runs: Vec<Run> = Vec::new();
    let mut i: usize = 0;
    while i < s.len()
        invariant
            i <= s@.len(),
            tiles(v, runs@, i as int),
            forall|k: int| 0 <= k < runs@.len() ==> greedy(v, #[trigger] runs@[k]),
            v == symbol_views(s@),
        decreases s@.len() - i,
    {
        let mut best = Run { start: i, len: 1, count: 1 };
        let mut cover: usize = 1;
        let mut len: usize = 1;
        while len <= (s.len() - i) / 2
            invariant
                i < s@.len(),
                len >= 1,
                best.start == i && best.len >= 1 && best.count >= 1,
                best.count == 1 ==> best.len == 1,
                cover == best.len * best.count,
                cover >= 1,
                i + cover <= s@.len(),
                periodic(v, best),
                v == symbol_views(s@),
                best.len <= len,
                best.count >= 2 ==> most_copies(v, i, best.len, best.count),
                forall|l: usize, k: usize|
                    1 <= l < len && i + 2 * l <= v.len() && #[trigger] most_copies(v, i, l, k) && k >= 2 ==> l * k
                        < cover || (l * k == cover && l >= best.len),
            decreases s@.len() - len,
        {
            let k = copies(s, i, len);
            let ghost old_cover = cover;
            let ghost old_best = best;
            if k >= 2 && len * k > cover {
                best = Run { start: i, len, count: k };
                cover = len * k;
            }
            proof {
                assert forall|l: usize, k2: usize|
                    1 <= l < len + 1 && i + 2 * l <= v.len() && #[trigger] most_copies(v, i, l, k2) && k2 >= 2 implies l * k2
                        < cover || (l * k2 == cover && l >= best.len) by {
                    if l == len {
                        lemma_copies_unique(v, i, len, k, k2);
                    }
                }
            }
            len = len + 1;
        }
        proof {
            assert forall|l: usize, k2: usize|
                1 <= l && i + 2 * l <= v.len() && #[trigger] most_copies(v, i, l, k2) && k2 >= 2 implies l * k2
                    < best.len * best.count || (l * k2 == best.len * best.count && l >= best.len) by {
                assert(l < len);
            }
            assert(greedy(v, best));
        }
        proof {
            assert(periodic(v, Run { start: i, len: 1, count: 1 }));
        }
        runs.push(best);
        i = i + cover;
    }
    runs
}

fn push_decimal(out: &mut Vec<char>, n: usize)
    ensures
        final(out)@ == old(out)@ + dec_digits(n as nat),
    decreases n,
{
    let table: [char; 10] = ['0', '1', '2', '3', '4', '5', '6', '7', '8', '9'];
    proof {
        assert(table@ =~= seq!['0', '1', '2', '3', '4', '5', '6', '7', '8', '9']);
    }
    if n >= 10 {
        push_decimal(out, n / 10);
    }
    out.push(table[n % 10]);
    assert(final(out)@ =~= old(out)@ + dec_digits(n as nat));
}

/// The texts of the symbols from `start` up to `end`, one after another.
fn push_texts(out: &mut Vec<char>, s: &Vec<Symbol>, start: usize, end: usize)
    requires
        start <= end <= s@.len(),
    ensures
        final(out)@ == old(out)@ + flatten(
            texts(symbol_views(s@).subrange(start as int, end as int)),
        ),
{
    let ghost v = symbol_views(s@);
    let mut i: usize = start;
    assert(texts(v.subrange(start as int, start as int)) =~= Seq::<Seq<char>>::empty());
    while i < end
        invariant
            start <= i <= end <= s@.len(),
            v == symbol_views(s@),
            out@ == old(out)@ + flatten(texts(v.subrange(start as int, i as int))),
        decreases end - i,
    {
        proof {
            let t = texts(v.subrange(start as int, i + 1));
            assert(t.drop_last() =~= texts(v.subrange(start as int, i as int)));
            assert(t.last() == s@[i as int].text@);
        }
        let mut j: usize = 0;
        let ghost base = out@;
        while j < s[i].text.len()
            invariant
                j <= s@[i as int].text@.len(),
                i < s@.len(),
                out@ == base + s@[i as int].text@.subrange(0, j as int),
            decreases s@[i as int].text@.len() - j,
        {
            out.push(s[i].text[j]);
            assert(out@ =~= base + s@[i as int].text@.subrange(0, j + 1));
            j = j + 1;
        }
        assert(s@[i as int].text@.subrange(0, j as int) =~= s@[i as int].text@);
        i = i + 1;
        proof {
            let t = texts(v.subrange(start as int, i as int));
            assert(out@ =~= old(out)@ + flatten(t));
        }
    }
}

/// The symbols that the runs stand for.
pub fn fold(s: &Vec<Symbol>, runs: &Vec<Run>) -> (out: Vec<Symbol>)
    requires
        plans(symbol_views(s@), runs@),
    ensures
        symbol_views(out@) == runs@.map_values(|r: Run| run_symbol(symbol_views(s@), r)),
{
    let ghost v = symbol_views(s@);
    let ghost want = runs@.map_values(|r: Run| run_symbol(v, r));
    let mut out: Vec<Symbol> = Vec::new();
    let mut k: usize = 0;
    let n = s.len();
    while k < runs.len()
        invariant
            k <= runs@.len(),
            out@.len() == k,
            n == s@.len(),
            v == symbol_views(s@),
            plans(v, runs@),
            want == runs@.map_values(|r: Run| run_symbol(v, r)),
            symbol_views(out@) == want.subrange(0, k as int),
        decreases runs@.len() - k,
    {
        let r = runs[k];
        assert(v.len() == s@.len());
        assert(runs@[k as int] == r);
        assert(r.len >= 1 && r.count >= 1 && run_end(r) <= v.len());
        assert(r.len <= r.len * r.count) by (nonlinear_arith)
            requires
                r.count >= 1,
        ;
        let sym = if r.count == 1 {
            Symbol { text: s[r.start].text.clone(), single: s[r.start].single }
        } else {
            let mut text: Vec<char> = Vec::new();
            let grouped = !(r.len == 1 && s[r.start].single);
            if grouped {
                text.push('(');
            }
            push_texts(&mut text, s, r.start, r.start + r.len);
            if grouped {
                text.push(')');
            }
            text.push('{');
            push_decimal(&mut text, r.count);
            text.push('}');
            Symbol { text, single: false }
        };
        proof {
            assert(sym@ =~= run_symbol(v, r));
        }
        let ghost sv = sym@;
        let ghost before = out@;
        out.push(sym);
        k = k + 1;
        proof {
            assert(want[k - 1] == run_symbol(v, r));
            assert(out@.len() == k);
            assert(out@[k - 1]@ == sv);
            assert(symbol_views(out@).len() == k);
            assert(symbol_views(out@)[k - 1] == sv);
            assert(symbol_views(before) =~= symbol_views(out@).subrange(0, k - 1));
            assert(symbol_views(out@) =~= want.subrange(0, k as int));
        }
    }
    proof {
        assert(want.subrange(0, runs@.len() as int) =~= want);
    }
    out
}

} // verus!
