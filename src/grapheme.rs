//! Splitting text into grapheme clusters, the atomic symbols of the automata.

use itertools::Itertools;
use unicode_segmentation::UnicodeSegmentation;
use vstd::prelude::*;

verus! {

/// The characters of a sequence of clusters, read one after another.
pub open spec fn flatten(cs: Seq<Seq<char>>) -> Seq<char>
    decreases cs.len(),
{
    if cs.len() == 0 {
        Seq::empty()
    } else {
        flatten(cs.drop_last()) + cs.last()
    }
}

/// The characters of each vector.
pub open spec fn views(v: Seq<Vec<char>>) -> Seq<Seq<char>> {
    v.map_values(|c: Vec<char>| c@)
}

/// The extended grapheme clusters of a text, as Unicode's segmentation rules cut it.
pub uninterp spec fn graphemes_of(s: Seq<char>) -> Seq<Seq<char>>;

/// Relies on `UnicodeSegmentation::graphemes(true)`: it cuts the text into its
/// extended grapheme clusters, each a non-empty run of the text's characters,
/// which read in order give back the text.
#[verifier::external_body]
pub(crate) fn grapheme_clusters(s: &Vec<char>) -> (r: Vec<Vec<char>>)
    ensures
        views(r@) == graphemes_of(s@),
        forall|i: int| 0 <= i < r@.len() ==> (#[trigger] r@[i])@.len() > 0,
        flatten(views(r@)) == s@,
{
    let text: String = s.iter().collect();
    text.graphemes(true).map(|g| g.chars().collect()).collect()
}

/// Relies on `Itertools::collect_vec`: it collects the owned copies of the
/// strings in their order.
#[verifier::external_body]
pub(crate) fn owned_strings(xs: &[&str]) -> (r: Vec<String>)
    ensures
        r@.len() == xs@.len(),
        forall|i: int| 0 <= i < r@.len() ==> (#[trigger] r@[i])@ == xs@[i]@,
{
    xs.iter().map(|s| s.to_string()).collect_vec()
}

/// The characters of a string, in order.
pub fn chars_of(s: &String) -> (r: Vec<char>)
    ensures
        r@ == s@,
{
    let t = s.as_str();
    let n = t.unicode_len();
    let mut r: Vec<char> = Vec::new();
    let mut i: usize = 0;
    while i < n
        invariant
            n == t@.len(),
            t@ == s@,
            i <= n,
            r@ == t@.subrange(0, i as int),
        decreases n - i,
    {
        r.push(t.get_char(i));
        i = i + 1;
        assert(r@ =~= t@.subrange(0, i as int));
    }
    assert(r@ =~= t@);
    r
}

} // verus!
