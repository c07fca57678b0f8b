//! The test cases as a set: without duplicates, shortest first, then in
//! lexicographic order of their characters.

use crate::grapheme::views;
use vstd::prelude::*;
use vstd::utf8::encode_utf8;

verus! {

/// Lexicographic order of characters by code point.
pub open spec fn lex_lt(a: Seq<char>, b: Seq<char>) -> bool
    decreases a.len(),
{
    if a.len() == 0 {
        b.len() > 0
    } else if b.len() == 0 {
        false
    } else if a[0] != b[0] {
        a[0] < b[0]
    } else {
        lex_lt(a.drop_first(), b.drop_first())
    }
}

/// The length of a text in UTF-8 bytes.
pub open spec fn byte_len(s: Seq<char>) -> nat {
    encode_utf8(s).len()
}

/// The order of test cases: by length in UTF-8 bytes, then lexicographic.
pub open spec fn case_lt(a: Seq<char>, b: Seq<char>) -> bool {
    byte_len(a) < byte_len(b) || (byte_len(a) == byte_len(b) && lex_lt(a, b))
}

pub open spec fn strictly_sorted(s: Seq<Seq<char>>) -> bool {
    forall|i: int, j: int| 0 <= i < j < s.len() ==> case_lt(#[trigger] s[i], #[trigger] s[j])
}

/// `r` holds the cases of `input`, each once, in the order of test cases.
pub open spec fn arranges(input: Seq<Seq<char>>, r: Seq<Seq<char>>) -> bool {
    &&& strictly_sorted(r)
    &&& forall|x: Seq<char>| r.contains(x) <==> input.contains(x)
}

proof fn lemma_lex_irreflexive(a: Seq<char>)
    ensures
        !lex_lt(a, a),
    decreases a.len(),
{
    if a.len() > 0 {
        lemma_lex_irreflexive(a.drop_first());
    }
}

proof fn lemma_lex_asymmetric(a: Seq<char>, b: Seq<char>)
    ensures
        !(lex_lt(a, b) && lex_lt(b, a)),
    decreases a.len(),
{
    if a.len() > 0 && b.len() > 0 && a[0] == b[0] {
        lemma_lex_asymmetric(a.drop_first(), b.drop_first());
    }
}

proof fn lemma_lex_total(a: Seq<char>, b: Seq<char>)
    ensures
        a == b || lex_lt(a, b) || lex_lt(b, a),
    decreases a.len(),
{
    if a.len() > 0 && b.len() > 0 {
        if a[0] == b[0] {
            lemma_lex_total(a.drop_first(), b.drop_first());
            if a.drop_first() == b.drop_first() {
                assert(a =~= seq![a[0]] + a.drop_first());
                assert(b =~= seq![b[0]] + b.drop_first());
            }
        }
    } else if a.len() == 0 && b.len() == 0 {
        assert(a =~= b);
    }
}

proof fn lemma_lex_transitive(a: Seq<char>, b: Seq<char>, c: Seq<char>)
    requires
        lex_lt(a, b),
        lex_lt(b, c),
    ensures
        lex_lt(a, c),
    decreases a.len(),
{
    if a.len() > 0 && b.len() > 0 && c.len() > 0 && a[0] == b[0] && b[0] == c[0] {
        lemma_lex_transitive(a.drop_first(), b.drop_first(), c.drop_first());
    }
}

/// The order of test cases is a strict total order.
pub proof fn lemma_case_order(a: Seq<char>, b: Seq<char>, c: Seq<char>)
    ensures
        !case_lt(a, a),
        !(case_lt(a, b) && case_lt(b, a)),
        a == b || case_lt(a, b) || case_lt(b, a),
        case_lt(a, b) && case_lt(b, c) ==> case_lt(a, c),
{
    lemma_lex_irreflexive(a);
    lemma_lex_asymmetric(a, b);
    lemma_lex_total(a, b);
    if case_lt(a, b) && case_lt(b, c) && byte_len(a) == byte_len(c) {
        lemma_lex_transitive(a, b, c);
    }
}

/// Two orderly lists of the same test cases are the same list: the set that
/// synthesis starts from depends neither on the order in which the cases
/// were given nor on how often each was given.
pub proof fn lemma_arrangement_unique(
    in1: Seq<Seq<char>>,
    in2: Seq<Seq<char>>,
    r1: Seq<Seq<char>>,
    r2: Seq<Seq<char>>,
)
    requires
        arranges(in1, r1),
        arranges(in2, r2),
        forall|x: Seq<char>| in1.contains(x) <==> in2.contains(x),
    ensures
        r1 == r2,
{
    lemma_sorted_same_elements(r1, r2);
}

proof fn lemma_sorted_same_elements(a: Seq<Seq<char>>, b: Seq<Seq<char>>)
    requires
        strictly_sorted(a),
        strictly_sorted(b),
        forall|x: Seq<char>| a.contains(x) <==> b.contains(x),
    ensures
        a == b,
    decreases a.len(),
{
    if a.len() == 0 {
        if b.len() > 0 {
            assert(b.contains(b[0]));
        }
        assert(a =~= b);
    } else {
        assert(a.contains(a[0]));
        assert(b.len() > 0);
        assert(b.contains(b[0]));
        if a[0] != b[0] {
            let j = choose|j: int| 0 <= j < b.len() && b[j] == a[0];
            let i = choose|i: int| 0 <= i < a.len() && a[i] == b[0];
            assert(j > 0);
            assert(i > 0);
            assert(case_lt(b[0], b[j]));
            assert(case_lt(a[0], a[i]));
            lemma_case_order(a[0], b[0], a[0]);
        }
        let (ta, tb) = (a.drop_first(), b.drop_first());
        assert forall|x: Seq<char>| ta.contains(x) <==> tb.contains(x) by {
            if ta.contains(x) {
                let i = choose|i: int| 0 <= i < ta.len() && ta[i] == x;
                assert(a[i + 1] == x);
                lemma_case_order(a[0], x, x);
                assert(x != a[0]);
                assert(a.contains(x));
                let j = choose|j: int| 0 <= j < b.len() && b[j] == x;
                assert(j != 0);
                assert(tb[j - 1] == x);
            }
            if tb.contains(x) {
                let j = choose|j: int| 0 <= j < tb.len() && tb[j] == x;
                assert(b[j + 1] == x);
                lemma_case_order(b[0], x, x);
                assert(x != b[0]);
                assert(b.contains(x));
                let i = choose|i: int| 0 <= i < a.len() && a[i] == x;
                assert(i != 0);
                assert(ta[i - 1] == x);
            }
        }
        lemma_sorted_same_elements(ta, tb);
        assert(a =~= seq![a[0]] + ta);
        assert(b =~= seq![b[0]] + tb);
    }
}

/// Whether `a` comes before `b` in the order of test cases, given their
/// lengths in bytes.
pub fn case_less(a: &Vec<char>, la: usize, b: &Vec<char>, lb: usize) -> (r: bool)
    requires
        la == byte_len(a@),
        lb == byte_len(b@),
    ensures
        r == case_lt(a@, b@),
{
    if la != lb {
        return la < lb;
    }
    assert(byte_len(a@) == byte_len(b@));
    assert(case_lt(a@, b@) == lex_lt(a@, b@));
    let mut i: usize = 0;
    assert(a@.skip(0) =~= a@);
    assert(b@.skip(0) =~= b@);
    while i < a.len() && i < b.len()
        invariant
            i <= a@.len(),
            i <= b@.len(),
            case_lt(a@, b@) == lex_lt(a@, b@),
            lex_lt(a@, b@) == lex_lt(a@.skip(i as int), b@.skip(i as int)),
        decreases a@.len() - i,
    {
        assert(a@.skip(i as int)[0] == a@[i as int]);
        assert(b@.skip(i as int)[0] == b@[i as int]);
        if a[i] != b[i] {
            assert(a@.skip(i as int).len() > 0 && b@.skip(i as int).len() > 0);
            assert(lex_lt(a@.skip(i as int), b@.skip(i as int)) == (a@[i as int] < b@[i as int]));
            let r = a[i] < b[i];
            assert(r == (a@[i as int] < b@[i as int]));
            return r;
        }
        assert(a@.skip(i as int).drop_first() =~= a@.skip(i + 1));
        assert(b@.skip(i as int).drop_first() =~= b@.skip(i + 1));
        i = i + 1;
    }
    assert(a@.skip(i as int).len() == a@.len() - i);
    assert(b@.skip(i as int).len() == b@.len() - i);
    a.len() < b.len()
}

/// The cases without duplicates, shortest first, then in lexicographic order.
pub fn arrange(cases: &Vec<Vec<char>>, lens: &Vec<usize>) -> (r: Vec<Vec<char>>)
    requires
        lens@.len() == cases@.len(),
        forall|i: int| 0 <= i < cases@.len() ==> #[trigger] lens@[i] == byte_len(cases@[i]@),
    ensures
        arranges(views(cases@), views(r@)),
{
    let mut r: Vec<Vec<char>> = Vec::new();
    let mut rl: Vec<usize> = Vec::new();
    let mut i: usize = 0;
    while i < cases.len()
        invariant
            i <= cases@.len(),
            lens@.len() == cases@.len(),
            forall|i: int| 0 <= i < cases@.len() ==> #[trigger] lens@[i] == byte_len(cases@[i]@),
            rl@.len() == r@.len(),
            forall|k: int| 0 <= k < r@.len() ==> #[trigger] rl@[k] == byte_len(r@[k]@),
            strictly_sorted(views(r@)),
            forall|x: Seq<char>|
                views(r@).contains(x) <==> views(cases@).subrange(0, i as int).contains(x),
        decreases cases@.len() - i,
    {
        let x = &cases[i];
        let lx = lens[i];
        let mut p: usize = 0;
        while p < r.len() && case_less(&r[p], rl[p], x, lx)
            invariant
                p <= r@.len(),
                rl@.len() == r@.len(),
                lx == byte_len(x@),
                forall|k: int| 0 <= k < r@.len() ==> #[trigger] rl@[k] == byte_len(r@[k]@),
                forall|k: int| 0 <= k < p ==> case_lt(#[trigger] r@[k]@, x@),
            decreases r@.len() - p,
        {
            p = p + 1;
        }
        let ghost old_views = views(r@);
        let present = p < r.len() && !case_less(x, lx, &r[p], rl[p]);
        if present {
            proof {
                lemma_case_order(x@, r@[p as int]@, x@);
            }
        } else {
            assert(p < old_views.len() ==> case_lt(x@, old_views[p as int]));
            assert(forall|k: int| 0 <= k < p ==> case_lt(#[trigger] old_views[k], x@));
            let ghost rl0 = rl@;
            let ghost r0 = r@;
            r.insert(p, x.clone());
            rl.insert(p, lx);
            proof {
                assert forall|k: int| 0 <= k < r@.len() implies #[trigger] rl@[k] == byte_len(r@[k]@) by {
                    if k < p {
                        assert(rl@[k] == rl0[k] && r@[k] == r0[k]);
                    } else if k > p {
                        assert(rl@[k] == rl0[k - 1] && r@[k] == r0[k - 1]);
                    }
                }
                let nv = views(r@);
                assert(nv =~= old_views.insert(p as int, x@));
                assert forall|a: int, b: int| 0 <= a < b < nv.len() implies case_lt(
                    #[trigger] nv[a],
                    #[trigger] nv[b],
                ) by {
                    if a < p && b == p {
                    } else if a == p && b > p {
                        if b - 1 > p {
                            assert(case_lt(old_views[p as int], old_views[b - 1]));
                            lemma_case_order(x@, old_views[p as int], old_views[b - 1]);
                        }
                    } else if a < p && b > p {
                        assert(case_lt(old_views[a], old_views[b - 1]));
                    }
                }
            }
        }
        proof {
            let nv = views(r@);
            let before = views(cases@).subrange(0, i as int);
            let seen = views(cases@).subrange(0, i + 1);
            assert(seen =~= before.push(x@));
            if present {
                lemma_case_order(x@, old_views[p as int], x@);
                assert(old_views[p as int] == x@);
                assert(nv == old_views);
            } else {
                assert(nv[p as int] == x@);
            }
            assert(nv.contains(x@));
            assert forall|y: Seq<char>| nv.contains(y) implies seen.contains(y) by {
                if y == x@ {
                    assert(seen[i as int] == y);
                } else {
                    let k = choose|k: int| 0 <= k < nv.len() && nv[k] == y;
                    if !present {
                        if k < p {
                            assert(old_views[k] == y);
                        } else {
                            assert(k != p);
                            assert(old_views[k - 1] == y);
                        }
                    }
                    assert(old_views.contains(y));
                    assert(before.contains(y));
                    let m = choose|m: int| 0 <= m < before.len() && before[m] == y;
                    assert(seen[m] == y);
                }
            }
            assert forall|y: Seq<char>| seen.contains(y) implies nv.contains(y) by {
                let m = choose|m: int| 0 <= m < seen.len() && seen[m] == y;
                if m < i {
                    assert(before[m] == y);
                    assert(before.contains(y));
                    assert(old_views.contains(y));
                    let k = choose|k: int| 0 <= k < old_views.len() && old_views[k] == y;
                    if !present {
                        if k < p {
                            assert(nv[k] == y);
                        } else {
                            assert(nv[k + 1] == y);
                        }
                    }
                }
            }
        }
        i = i + 1;
    }
    assert(views(cases@).subrange(0, cases@.len() as int) =~= views(cases@));
    r
}

} // verus!
