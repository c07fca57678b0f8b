//! How a grapheme cluster is written inside a pattern: character classes,
//! escaped metacharacters and unicode escape sequences.

use vstd::prelude::*;

verus! {

/// The switches that shape a pattern.
#[derive(Clone, Copy, Debug, PartialEq, Eq, Structural)]
pub struct Options {
    pub digit: bool,
    pub word: bool,
    pub space: bool,
    pub repetitions: bool,
    pub escape: bool,
    pub surrogates: bool,
}

/// One symbol of a pattern: its text, and whether a quantifier may follow it
/// without parentheses.
#[derive(Debug)]
pub struct Symbol {
    pub text: Vec<char>,
    pub single: bool,
}

impl Symbol {
    pub open spec fn view(&self) -> (Seq<char>, bool) {
        (self.text@, self.single)
    }
}

pub open spec fn is_digit(c: char) -> bool {
    '0' <= c <= '9'
}

pub open spec fn is_word(c: char) -> bool {
    is_digit(c) || ('a' <= c <= 'z') || ('A' <= c <= 'Z') || c == '_'
}

pub open spec fn is_space(c: char) -> bool {
    c == ' ' || c == '\t' || c == '\n' || c == '\r' || c == '\x0B' || c == '\x0C'
}

/// Characters that a pattern gives a meaning of their own.
pub open spec fn is_meta(c: char) -> bool {
    c == '\\' || c == '.' || c == '*' || c == '+' || c == '?' || c == '(' || c == ')'
        || c == '[' || c == ']' || c == '{' || c == '}' || c == '|' || c == '^' || c == '$'
}

pub open spec fn hex_digit(d: nat) -> char {
    seq!['0', '1', '2', '3', '4', '5', '6', '7', '8', '9', 'a', 'b', 'c', 'd', 'e', 'f'][d as int]
}

/// Lower-case hexadecimal digits of `n`, without leading zeros.
pub open spec fn hex_digits(n: nat) -> Seq<char>
    decreases n,
{
    if n < 16 {
        seq![hex_digit(n)]
    } else {
        hex_digits(n / 16) + seq![hex_digit(n % 16)]
    }
}

/// `\u{...}` for a code unit or code point.
pub open spec fn unicode_escape(n: nat) -> Seq<char> {
    seq!['\\', 'u', '{'] + hex_digits(n) + seq!['}']
}

pub open spec fn is_astral(c: char) -> bool {
    c as u32 >= 0x10000
}

pub open spec fn high_surrogate(n: nat) -> nat {
    (0xD800 + (n - 0x10000) / 0x400) as nat
}

pub open spec fn low_surrogate(n: nat) -> nat {
    (0xDC00 + (n - 0x10000) % 0x400) as nat
}

/// How one character of a literal is written.
pub open spec fn render_char(c: char, opts: Options) -> Seq<char> {
    if opts.escape && c as u32 > 127 {
        if opts.surrogates && is_astral(c) {
            unicode_escape(high_surrogate(c as nat)) + unicode_escape(low_surrogate(c as nat))
        } else {
            unicode_escape(c as nat)
        }
    } else if is_meta(c) {
        seq!['\\', c]
    } else {
        seq![c]
    }
}

/// How a run of characters of a literal is written.
pub open spec fn render_chars(cs: Seq<char>, opts: Options) -> Seq<char>
    decreases cs.len(),
{
    if cs.len() == 0 {
        Seq::empty()
    } else {
        render_chars(cs.drop_last(), opts) + render_char(cs.last(), opts)
    }
}

/// The class that a cluster falls into, where its switch is on. A digit is
/// tested first, then a word character, then a space.
pub open spec fn class_of(c: Seq<char>, opts: Options) -> Option<Seq<char>> {
    if c.len() != 1 {
        None
    } else if opts.digit && is_digit(c[0]) {
        Some(seq!['\\', 'd'])
    } else if opts.word && is_word(c[0]) {
        Some(seq!['\\', 'w'])
    } else if opts.space && is_space(c[0]) {
        Some(seq!['\\', 's'])
    } else {
        None
    }
}

/// The symbol that stands for a cluster.
pub open spec fn symbol_of(c: Seq<char>, opts: Options) -> (Seq<char>, bool) {
    match class_of(c, opts) {
        Some(t) => (t, true),
        None => (
            render_chars(c, opts),
            c.len() == 1 && !(opts.escape && opts.surrogates && is_astral(c[0])),
        ),
    }
}

fn hex_char(d: u32) -> (r: char)
    requires
        d < 16,
    ensures
        r == hex_digit(d as nat),
{
    let table: [char; 16] = ['0', '1', '2', '3', '4', '5', '6', '7', '8', '9', 'a', 'b', 'c', 'd', 'e', 'f'];
    proof {
        assert(table@ =~= seq!['0', '1', '2', '3', '4', '5', '6', '7', '8', '9', 'a', 'b', 'c', 'd', 'e', 'f']);
    }
    table[d as usize]
}

fn push_hex(out: &mut Vec<char>, n: u32)
    ensures
        final(out)@ == old(out)@ + hex_digits(n as nat),
    decreases n,
{
    if n < 16 {
        out.push(hex_char(n));
    } else {
        push_hex(out, n / 16);
        out.push(hex_char(n % 16));
        assert(final(out)@ =~= old(out)@ + hex_digits(n as nat));
    }
}

fn push_unicode_escape(out: &mut Vec<char>, n: u32)
    ensures
        final(out)@ == old(out)@ + unicode_escape(n as nat),
{
    out.push('\\');
    out.push('u');
    out.push('{');
    push_hex(out, n);
    out.push('}');
    assert(final(out)@ =~= old(out)@ + unicode_escape(n as nat));
}

pub fn push_char(out: &mut Vec<char>, c: char, opts: Options)
    ensures
        final(out)@ == old(out)@ + render_char(c, opts),
{
    let n = c as u32;
    if opts.escape && n > 127 {
        if opts.surrogates && n >= 0x10000 {
            push_unicode_escape(out, 0xD800 + (n - 0x10000) / 0x400);
            push_unicode_escape(out, 0xDC00 + (n - 0x10000) % 0x400);
            assert(final(out)@ =~= old(out)@ + render_char(c, opts));
        } else {
            push_unicode_escape(out, n);
        }
    } else if c == '\\' || c == '.' || c == '*' || c == '+' || c == '?' || c == '(' || c == ')'
        || c == '[' || c == ']' || c == '{' || c == '}' || c == '|' || c == '^' || c == '$' {
        out.push('\\');
        out.push(c);
        assert(final(out)@ =~= old(out)@ + render_char(c, opts));
    } else {
        out.push(c);
        assert(final(out)@ =~= old(out)@ + render_char(c, opts));
    }
}

/// The symbol that stands for a grapheme cluster.
pub fn symbol_for(c: &Vec<char>, opts: Options) -> (r: Symbol)
    ensures
        r@ == symbol_of(c@, opts),
{
    if c.len() == 1 {
        let x = c[0];
        if opts.digit && '0' <= x && x <= '9' {
            return Symbol { text: vec!['\\', 'd'], single: true };
        } else if opts.word && (('0' <= x && x <= '9') || ('a' <= x && x <= 'z') || ('A' <= x
            && x <= 'Z') || x == '_') {
            return Symbol { text: vec!['\\', 'w'], single: true };
        } else if opts.space && (x == ' ' || x == '\t' || x == '\n' || x == '\r' || x == '\x0B'
            || x == '\x0C') {
            return Symbol { text: vec!['\\', 's'], single: true };
        }
    }
    let mut text: Vec<char> = Vec::new();
    let mut i: usize = 0;
    while i < c.len()
        invariant
            i <= c@.len(),
            text@ == render_chars(c@.subrange(0, i as int), opts),
        decreases c@.len() - i,
    {
        let ghost before = text@;
        push_char(&mut text, c[i], opts);
        proof {
            let s = c@.subrange(0, i + 1);
            assert(s.drop_last() =~= c@.subrange(0, i as int));
        }
        i = i + 1;
    }
    assert(c@.subrange(0, c@.len() as int) =~= c@);
    let single = c.len() == 1 && !(opts.escape && opts.surrogates && c[0] as u32 >= 0x10000);
    Symbol { text, single }
}

} // verus!
