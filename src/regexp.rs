//! Putting the stages together: from test cases to an anchored pattern.

use crate::ast::{synth_of, anchored, expr_matches, render_anchored, synthesize, wf_expr, Expr};
use crate::cases::{arrange, arranges, byte_len, lemma_arrangement_unique};
use crate::dfa::{alphabet_spec, intern, min_spec, minimal_automaton, trie_spec, word_symbols, word_views};
use crate::grapheme::{chars_of, flatten, grapheme_clusters, graphemes_of, owned_strings, views};
use crate::repetition::{fold, lemma_plans_unique, plan, plans, run_symbol, symbol_views, Run};
use crate::text::{symbol_for, symbol_of, Options, Symbol};
use vstd::prelude::*;

verus! {

/// Relies on `String`'s `FromIterator<char>`: the string holds the characters
/// in their order.
#[verifier::external_body]
fn string_from(chars: &Vec<char>) -> (r: String)
    ensures
        r@ == chars@,
{
    chars.iter().collect()
}

pub open spec fn string_views(v: Seq<String>) -> Seq<Seq<char>> {
    v.map_values(|s: String| s@)
}

/// The symbols that stand for the clusters of a text.
pub open spec fn base_symbols(s: Seq<char>, opts: Options) -> Seq<(Seq<char>, bool)> {
    graphemes_of(s).map_values(|c: Seq<char>| symbol_of(c, opts))
}

/// The symbols of a text: one for each cluster, and, where repetitions are
/// folded, one for each run of a plan of those.
pub open spec fn symbols_of(s: Seq<char>, opts: Options, r: Seq<(Seq<char>, bool)>) -> bool {
    if opts.repetitions {
        exists|runs: Seq<Run>|
            plans(base_symbols(s, opts), runs) && r == runs.map_values(
                |x: Run| run_symbol(base_symbols(s, opts), x),
            )
    } else {
        r == base_symbols(s, opts)
    }
}

/// The symbols of a text are determined by the text and the switches.
pub proof fn lemma_symbols_unique(s: Seq<char>, opts: Options, a: Seq<(Seq<char>, bool)>, b: Seq<(Seq<char>, bool)>)
    requires
        symbols_of(s, opts, a),
        symbols_of(s, opts, b),
    ensures
        a == b,
{
    if opts.repetitions {
        let base = base_symbols(s, opts);
        let ra = choose|runs: Seq<Run>| plans(base, runs) && a == runs.map_values(|x: Run| run_symbol(base, x));
        let rb = choose|runs: Seq<Run>| plans(base, runs) && b == runs.map_values(|x: Run| run_symbol(base, x));
        lemma_plans_unique(base, ra, rb);
    }
}

/// The symbols of each case.
pub open spec fn ws_of(cases: Seq<Seq<char>>, opts: Options) -> Seq<Seq<(Seq<char>, bool)>> {
    Seq::new(cases.len(), |j: int| choose|syms: Seq<(Seq<char>, bool)>| symbols_of(cases[j], opts, syms))
}

/// The number of a symbol in the alphabet.
pub open spec fn number_of(alphabet: Seq<(Seq<char>, bool)>, x: (Seq<char>, bool)) -> usize {
    choose|k: usize| k < alphabet.len() && alphabet[k as int] == x
}

/// The words of symbol numbers of the cases.
pub open spec fn numbered(alphabet: Seq<(Seq<char>, bool)>, ws: Seq<Seq<(Seq<char>, bool)>>) -> Seq<Seq<usize>> {
    Seq::new(ws.len(), |j: int| Seq::new(ws[j].len(), |i: int| number_of(alphabet, ws[j][i])))
}

/// The alphabet of the pattern of the cases.
pub open spec fn pattern_alphabet(cases: Seq<Seq<char>>, opts: Options) -> Seq<(Seq<char>, bool)> {
    alphabet_spec(ws_of(cases, opts))
}

/// The expression of the pattern of the cases: the trie of their symbol
/// numbers, merged, read off by state elimination.
pub open spec fn pattern_ast(cases: Seq<Seq<char>>, opts: Options) -> Expr {
    let words = numbered(pattern_alphabet(cases, opts), ws_of(cases, opts));
    let t = trie_spec(words);
    let m = min_spec(t.0, t.1, 0);
    synth_of(m.0, m.1, m.2)
}

/// The pattern of the sorted cases under the switches.
pub open spec fn pattern_of(cases: Seq<Seq<char>>, opts: Options) -> Seq<char> {
    anchored(pattern_ast(cases, opts), pattern_alphabet(cases, opts))
}

/// Two lists with the same cases, in any order and with any repetitions,
/// give the same pattern.
pub proof fn lemma_same_cases_same_pattern(
    in1: Seq<Seq<char>>,
    in2: Seq<Seq<char>>,
    c1: Seq<Seq<char>>,
    c2: Seq<Seq<char>>,
    opts: Options,
)
    requires
        arranges(in1, c1),
        arranges(in2, c2),
        forall|x: Seq<char>| in1.contains(x) <==> in2.contains(x),
    ensures
        pattern_of(c1, opts) == pattern_of(c2, opts),
{
    lemma_arrangement_unique(in1, in2, c1, c2);
}

/// The word of symbol numbers names, one by one, the symbols `syms`.
pub open spec fn spells(alphabet: Seq<(Seq<char>, bool)>, w: Seq<usize>, syms: Seq<(Seq<char>, bool)>) -> bool {
    &&& w.len() == syms.len()
    &&& forall|i: int| 0 <= i < w.len() ==> w[i] < alphabet.len() && alphabet[w[i] as int] == #[trigger] syms[i]
}

/// The clusters of the text are non-empty and read back to the text.
pub open spec fn segments(s: Seq<char>) -> bool {
    &&& flatten(graphemes_of(s)) == s
    &&& forall|i: int| 0 <= i < graphemes_of(s).len() ==> (#[trigger] graphemes_of(s)[i]).len() > 0
}

/// `ws` holds the symbols of each case, in order, and each case is cut into
/// its clusters.
pub open spec fn symbolizes(cases: Seq<String>, opts: Options, ws: Seq<Seq<(Seq<char>, bool)>>) -> bool {
    &&& ws.len() == cases.len()
    &&& forall|j: int| 0 <= j < cases.len() ==> symbols_of(cases[j]@, opts, #[trigger] ws[j])
    &&& forall|j: int| 0 <= j < cases.len() ==> segments(#[trigger] cases[j]@)
}

/// Every symbol of every case is in the alphabet, and the alphabet holds no
/// symbol twice.
pub open spec fn alphabet_of(alphabet: Seq<(Seq<char>, bool)>, ws: Seq<Seq<(Seq<char>, bool)>>) -> bool {
    &&& forall|j: int, i: int| 0 <= j < ws.len() && 0 <= i < ws[j].len() ==> alphabet.contains(#[trigger] ws[j][i])
    &&& forall|a: int, b: int| 0 <= a < b < alphabet.len() ==> #[trigger] alphabet[a] != #[trigger] alphabet[b]
}

/// The word of symbol numbers names the symbols of one of `ws`.
pub open spec fn spells_some(alphabet: Seq<(Seq<char>, bool)>, w: Seq<usize>, ws: Seq<Seq<(Seq<char>, bool)>>) -> bool {
    exists|j: int| 0 <= j < ws.len() && spells(alphabet, w, #[trigger] ws[j])
}

/// `pattern` is the anchored text of `e` over the alphabet, a well-formed
/// expression; where there are cases, `e` matches a word of symbol numbers
/// exactly when it names the symbols of one of the cases; and where there are
/// none, the pattern is `^$`.
pub open spec fn describes(
    e: Expr,
    alphabet: Seq<(Seq<char>, bool)>,
    ws: Seq<Seq<(Seq<char>, bool)>>,
    cases: Seq<String>,
    opts: Options,
    pattern: Seq<char>,
) -> bool {
    &&& wf_expr(e, alphabet.len())
    &&& pattern == anchored(e, alphabet)
    &&& symbolizes(cases, opts, ws)
    &&& alphabet_of(alphabet, ws)
    &&& cases.len() > 0 ==> forall|w: Seq<usize>| #[trigger] expr_matches(e, w) == spells_some(alphabet, w, ws)
    &&& cases.len() == 0 ==> e is Empty && pattern == seq!['^', '$']
}

/// Builds regular expressions from test cases.
pub struct RegExpBuilder {
    pub test_cases: Vec<String>,
    pub is_digit_converted: bool,
    pub is_word_converted: bool,
    pub is_space_converted: bool,
    pub is_repetition_converted: bool,
    pub is_non_ascii_char_escaped: bool,
    pub is_astral_code_point_converted_to_surrogate: bool,
}

impl RegExpBuilder {
    pub open spec fn options(&self) -> Options {
        Options {
            digit: self.is_digit_converted,
            word: self.is_word_converted,
            space: self.is_space_converted,
            repetitions: self.is_repetition_converted,
            escape: self.is_non_ascii_char_escaped,
            surrogates: self.is_astral_code_point_converted_to_surrogate,
        }
    }

    /// A builder for the test cases, which need not be sorted, with every
    /// conversion switched off.
    pub fn from(test_cases: &[&str]) -> (r: Self)
        ensures
            r.test_cases@.len() == test_cases@.len(),
            forall|i: int| 0 <= i < test_cases@.len() ==> (#[trigger] r.test_cases@[i])@ == test_cases@[i]@,
            r.options() == (Options {
                digit: false,
                word: false,
                space: false,
                repetitions: false,
                escape: false,
                surrogates: false,
            }),
    {
        RegExpBuilder {
            test_cases: owned_strings(test_cases),
            is_digit_converted: false,
            is_word_converted: false,
            is_space_converted: false,
            is_repetition_converted: false,
            is_non_ascii_char_escaped: false,
            is_astral_code_point_converted_to_surrogate: false,
        }
    }

    /// Writes each single decimal digit as `\d`.
    pub fn with_converted_digit_chars(&mut self) -> (r: &mut Self)
        ensures
            r.test_cases == old(self).test_cases,
            r.options() == (Options { digit: true, ..old(self).options() }),
            *final(self) == *final(r),
    {
        self.is_digit_converted = true;
        self
    }
    /// Writes each single word character (a letter, a digit or `_`) as `\\w`.
    pub fn with_converted_word_chars(&mut self) -> (r: &mut Self)
        ensures
            r.test_cases == old(self).test_cases,
            r.options() == (Options { word: true, ..old(self).options() }),
            *final(self) == *final(r),
    {
        self.is_word_converted = true;
        self
    }

    /// Writes each single white-space character as `\\s`.
    pub fn with_converted_space_chars(&mut self) -> (r: &mut Self)
        ensures
            r.test_cases == old(self).test_cases,
            r.options() == (Options { space: true, ..old(self).options() }),
            *final(self) == *final(r),
    {
        self.is_space_converted = true;
        self
    }

    /// Detects runs of a repeated sequence of clusters and writes them with `{n}`.
    pub fn with_converted_repetitions(&mut self) -> (r: &mut Self)
        ensures
            r.test_cases == old(self).test_cases,
            r.options() == (Options { repetitions: true, ..old(self).options() }),
            *final(self) == *final(r),
    {
        self.is_repetition_converted = true;
        self
    }

    /// Writes each character beyond ASCII as a unicode escape sequence; with
    /// `use_surrogate_pairs`, a character beyond the Basic Multilingual Plane
    /// as the escapes of its two surrogates.
    pub fn with_escaped_non_ascii_chars(&mut self, use_surrogate_pairs: bool) -> (r: &mut Self)
        ensures
            r.test_cases == old(self).test_cases,
            r.options() == (Options {
                escape: true,
                surrogates: use_surrogate_pairs,
                ..old(self).options()
            }),
            *final(self) == *final(r),
    {
        self.is_non_ascii_char_escaped = true;
        self.is_astral_code_point_converted_to_surrogate = use_surrogate_pairs;
        self
    }

    /// The pattern of the test cases under the switches, between the anchors
    /// `^` and `$`. The test cases are left sorted and without duplicates.
    pub fn build(&mut self) -> (r: String)
        ensures
            arranges(string_views(old(self).test_cases@), string_views(final(self).test_cases@)),
            final(self).options() == old(self).options(),
            exists|e: Expr, alphabet: Seq<(Seq<char>, bool)>, ws: Seq<Seq<(Seq<char>, bool)>>|
                #[trigger] describes(e, alphabet, ws, final(self).test_cases@, old(self).options(), r@),
            r@ == pattern_of(string_views(final(self).test_cases@), old(self).options()),
    {
        let opts = self.options_value();
        let re = RegExp::from(&mut self.test_cases, opts);
        let r = re.to_string();
        proof {
            let alphabet = symbol_views(re.symbols@);
            let ws = choose|ws: Seq<Seq<(Seq<char>, bool)>>| #[trigger] symbolizes(self.test_cases@, opts, ws) && alphabet_of(alphabet, ws) && (
                self.test_cases@.len() > 0 ==> forall|w: Seq<usize>|
                    #[trigger] expr_matches(re.ast, w) == spells_some(alphabet, w, ws));
            if self.test_cases@.len() == 0 {
                assert(anchored(re.ast, alphabet) =~= seq!['^', '$']);
            }
            assert(describes(re.ast, alphabet, ws, self.test_cases@, opts, r@));
        }
        r
    }

    fn options_value(&self) -> (o: Options)
        ensures
            o == self.options(),
    {
        Options {
            digit: self.is_digit_converted,
            word: self.is_word_converted,
            space: self.is_space_converted,
            repetitions: self.is_repetition_converted,
            escape: self.is_non_ascii_char_escaped,
            surrogates: self.is_astral_code_point_converted_to_surrogate,
        }
    }
}

/// A pattern as an expression over numbered symbols.
pub struct RegExp {
    pub ast: Expr,
    pub symbols: Vec<Symbol>,
}

impl RegExp {
    pub open spec fn wf(&self) -> bool {
        wf_expr(self.ast, self.symbols@.len() as nat)
    }

    /// The pattern of the test cases, which are left sorted and without
    /// duplicates.
    pub fn from(test_cases: &mut Vec<String>, opts: Options) -> (r: Self)
        ensures
            arranges(string_views(old(test_cases)@), string_views(final(test_cases)@)),
            r.wf(),
            exists|ws: Seq<Seq<(Seq<char>, bool)>>| #[trigger] symbolizes(final(test_cases)@, opts, ws) && alphabet_of(symbol_views(r.symbols@), ws) && (
            final(test_cases)@.len() > 0 ==> forall|w: Seq<usize>|
                #[trigger] expr_matches(r.ast, w) == spells_some(symbol_views(r.symbols@), w, ws)),
            final(test_cases)@.len() == 0 ==> r.ast is Empty,
            r.ast == pattern_ast(string_views(final(test_cases)@), opts),
            symbol_views(r.symbols@) == pattern_alphabet(string_views(final(test_cases)@), opts),
    {
        Self::sort(test_cases);
        let words = Self::grapheme_clusters(test_cases, opts);
        let interned = intern(&words);
        let n = Ghost(interned.alphabet@.len() as nat);
        let automaton = minimal_automaton(&interned.words, interned.alphabet.len());
        let ast = synthesize(&automaton, n);
        proof {
            let cs = string_views(test_cases@);
            let ws = word_symbols(words@);
            assert forall|j: int| 0 <= j < ws.len() implies #[trigger] ws[j] == ws_of(cs, opts)[j] by {
                assert(symbols_of(test_cases@[j]@, opts, ws[j]));
                let c = choose|syms: Seq<(Seq<char>, bool)>| symbols_of(cs[j], opts, syms);
                lemma_symbols_unique(cs[j], opts, ws[j], c);
            }
            assert(ws =~= ws_of(cs, opts));
            let alpha = symbol_views(interned.alphabet@);
            assert forall|j: int| 0 <= j < ws.len() implies #[trigger] word_views(interned.words@)[j] == numbered(alpha, ws)[j] by {
                assert forall|i: int| 0 <= i < ws[j].len() implies interned.words@[j]@[i] == number_of(alpha, ws[j][i]) by {
                    let id = interned.words@[j]@[i];
                    assert(alpha[id as int] == ws[j][i]);
                    let k = number_of(alpha, ws[j][i]);
                    assert(k < alpha.len() && alpha[k as int] == ws[j][i]);
                    if k != id {
                        if k < id {
                            assert(interned.alphabet@[k as int]@ != interned.alphabet@[id as int]@);
                        } else {
                            assert(interned.alphabet@[id as int]@ != interned.alphabet@[k as int]@);
                        }
                    }
                }
                assert(word_views(interned.words@)[j] =~= numbered(alpha, ws)[j]);
            }
            assert(word_views(interned.words@) =~= numbered(alpha, ws));
        }
        let r = RegExp { ast, symbols: interned.alphabet };
        proof {
            let alpha = symbol_views(r.symbols@);
            let ws = words@.map_values(|v: Vec<Symbol>| symbol_views(v@));
            assert(symbolizes(test_cases@, opts, ws)) by {
                assert forall|j: int| 0 <= j < test_cases@.len() implies symbols_of(test_cases@[j]@, opts, #[trigger] ws[j]) by {
                    assert(ws[j] == symbol_views(words@[j]@));
                }
            }
            assert(alphabet_of(alpha, ws)) by {
                assert forall|j: int, i: int| 0 <= j < ws.len() && 0 <= i < ws[j].len() implies alpha.contains(#[trigger] ws[j][i]) by {
                    assert(ws[j] == symbol_views(words@[j]@));
                    assert(alpha[interned.words@[j]@[i] as int] == ws[j][i]);
                }
                assert forall|a: int, b: int| 0 <= a < b < alpha.len() implies #[trigger] alpha[a] != #[trigger] alpha[b] by {
                    assert(r.symbols@[a]@ != r.symbols@[b]@);
                }
            }
            if test_cases@.len() == 0 {
                assert forall|w: Seq<usize>| !automaton.accepts(w) by {}
            }
            if test_cases@.len() > 0 {
                assert(automaton.accepts(interned.words@[0]@));
                assert forall|w: Seq<usize>| #[trigger] expr_matches(r.ast, w) == spells_some(alpha, w, ws) by {
                    if expr_matches(r.ast, w) {
                        let j = choose|j: int| 0 <= j < interned.words@.len() && interned.words@[j]@ == w;
                        assert(ws[j] == symbol_views(words@[j]@));
                        assert(spells(alpha, w, ws[j]));
                    }
                    if spells_some(alpha, w, ws) {
                        let j = choose|j: int| 0 <= j < ws.len() && spells(alpha, w, #[trigger] ws[j]);
                        assert(ws[j] == symbol_views(words@[j]@));
                        assert forall|i: int| 0 <= i < w.len() implies w[i] == interned.words@[j]@[i] by {
                            assert(alpha[w[i] as int] == ws[j][i]);
                            assert(r.symbols@[interned.words@[j]@[i] as int]@ == (words@[j]@[i])@);
                            assert(alpha[interned.words@[j]@[i] as int] == ws[j][i]);
                        }
                        assert(w =~= interned.words@[j]@);
                    }
                }
            }
        }
        r
    }

    /// Sorts the test cases, shortest first and then lexicographically, and
    /// removes duplicates.
    pub fn sort(test_cases: &mut Vec<String>)
        ensures
            arranges(string_views(old(test_cases)@), string_views(final(test_cases)@)),
    {
        let mut chars: Vec<Vec<char>> = Vec::new();
        let mut lens: Vec<usize> = Vec::new();
        let mut i: usize = 0;
        while i < test_cases.len()
            invariant
                i <= test_cases@.len(),
                chars@.len() == i,
                lens@.len() == i,
                views(chars@) == string_views(test_cases@).subrange(0, i as int),
                forall|k: int| 0 <= k < i ==> #[trigger] lens@[k] == byte_len(chars@[k]@),
            decreases test_cases@.len() - i,
        {
            let c = chars_of(&test_cases[i]);
            let st = test_cases[i].as_str();
            let l = st.as_bytes().len();
            assert(st@ == c@);
            assert(l == byte_len(c@));
            let ghost c0 = chars@;
            let ghost l0 = lens@;
            chars.push(c);
            lens.push(l);
            proof {
                assert forall|k: int| 0 <= k < i + 1 implies #[trigger] lens@[k] == byte_len(chars@[k]@) by {
                    if k < i {
                        assert(lens@[k] == l0[k] && chars@[k] == c0[k]);
                    }
                }
            }
            i = i + 1;
            assert(views(chars@) =~= string_views(test_cases@).subrange(0, i as int));
        }
        assert(string_views(test_cases@).subrange(0, i as int) =~= string_views(test_cases@));
        let sorted = arrange(&chars, &lens);
        let mut out: Vec<String> = Vec::new();
        let mut j: usize = 0;
        while j < sorted.len()
            invariant
                j <= sorted@.len(),
                out@.len() == j,
                string_views(out@) == views(sorted@).subrange(0, j as int),
            decreases sorted@.len() - j,
        {
            out.push(string_from(&sorted[j]));
            j = j + 1;
            assert(string_views(out@) =~= views(sorted@).subrange(0, j as int));
        }
        assert(views(sorted@).subrange(0, j as int) =~= views(sorted@));
        *test_cases = out;
    }

    /// The symbols of each test case.
    pub fn grapheme_clusters(test_cases: &Vec<String>, opts: Options) -> (r: Vec<Vec<Symbol>>)
        ensures
            r@.len() == test_cases@.len(),
            forall|w: int|
                0 <= w < r@.len() ==> symbols_of(
                    test_cases@[w]@,
                    opts,
                    symbol_views((#[trigger] r@[w])@),
                ),
            forall|w: int| 0 <= w < r@.len() ==> segments(#[trigger] test_cases@[w]@),
    {
        let mut out: Vec<Vec<Symbol>> = Vec::new();
        let mut w: usize = 0;
        while w < test_cases.len()
            invariant
                w <= test_cases@.len(),
                out@.len() == w,
                forall|x: int|
                    0 <= x < w ==> symbols_of(
                        test_cases@[x]@,
                        opts,
                        symbol_views((#[trigger] out@[x])@),
                    ),
                forall|x: int| 0 <= x < w ==> segments(#[trigger] test_cases@[x]@),
            decreases test_cases@.len() - w,
        {
            let chars = chars_of(&test_cases[w]);
            let clusters = grapheme_clusters(&chars);
            proof {
                assert forall|i: int| 0 <= i < graphemes_of(chars@).len() implies (#[trigger] graphemes_of(chars@)[i]).len() > 0 by {
                    assert(views(clusters@)[i] == clusters@[i]@);
                }
                assert(segments(test_cases@[w as int]@));
            }
            let ghost base = base_symbols(test_cases@[w as int]@, opts);
            let mut syms: Vec<Symbol> = Vec::new();
            let mut i: usize = 0;
            while i < clusters.len()
                invariant
                    i <= clusters@.len(),
                    w < test_cases@.len(),
                    syms@.len() == i,
                    views(clusters@) == graphemes_of(chars@),
                    chars@ == test_cases@[w as int]@,
                    base == base_symbols(test_cases@[w as int]@, opts),
                    symbol_views(syms@) == base.subrange(0, i as int),
                decreases clusters@.len() - i,
            {
                let sym = symbol_for(&clusters[i], opts);
                proof {
                    assert(views(clusters@)[i as int] == clusters@[i as int]@);
                    assert(base.len() == clusters@.len());
                    assert(base[i as int] == symbol_of(graphemes_of(chars@)[i as int], opts));
                }
                syms.push(sym);
                i = i + 1;
                assert(symbol_views(syms@) =~= base.subrange(0, i as int));
            }
            assert(base.subrange(0, i as int) =~= base);
            let word = if opts.repetitions {
                let runs = plan(&syms);
                let folded = fold(&syms, &runs);
                assert(plans(base, runs@));
                folded
            } else {
                syms
            };
            out.push(word);
            w = w + 1;
        }
        out
    }

    /// The pattern as text.
    pub fn to_string(&self) -> (r: String)
        requires
            self.wf(),
        ensures
            r@ == anchored(self.ast, symbol_views(self.symbols@)),
    {
        string_from(&render_anchored(&self.ast, &self.symbols))
    }
}

} // verus!
