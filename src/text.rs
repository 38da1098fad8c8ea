//! Text primitives: case folding, substring tests, name order, path joining.

use vstd::prelude::*;

verus! {

/// The case-folded (lowercase) form of a string, as std computes it.
pub uninterp spec fn lower_of(s: Seq<char>) -> Seq<char>;

/// Relies on `str::to_lowercase`: the result depends on the characters alone.
#[verifier::external_body]
pub(crate) fn lowercase(s: &str) -> (r: String)
    ensures
        r@ == lower_of(s@),
{
    s.to_lowercase()
}

/// `needle` occurs as a contiguous run of characters of `hay`.
pub open spec fn occurs_in(hay: Seq<char>, needle: Seq<char>) -> bool {
    exists|i: int|
        0 <= i && i + needle.len() <= hay.len() && #[trigger] hay.subrange(i, i + needle.len())
            == needle
}

/// Relies on `str::contains` with a string pattern: true exactly when
/// `needle` occurs as a contiguous run of `hay`.
#[verifier::external_body]
pub(crate) fn contains_str(hay: &str, needle: &str) -> (r: bool)
    ensures
        r == occurs_in(hay@, needle@),
{
    hay.contains(needle)
}

/// Lexicographic order on characters by code point, a proper prefix first.
/// This is the order of `str`'s comparison operators.
pub open spec fn text_less(a: Seq<char>, b: Seq<char>) -> bool
    decreases a.len(),
{
    if a.len() == 0 {
        b.len() > 0
    } else if b.len() == 0 {
        false
    } else if a[0] != b[0] {
        (a[0] as u32) < (b[0] as u32)
    } else {
        text_less(a.drop_first(), b.drop_first())
    }
}

pub proof fn lemma_text_less_transitive(a: Seq<char>, b: Seq<char>, c: Seq<char>)
    requires
        text_less(a, b),
        text_less(b, c),
    ensures
        text_less(a, c),
    decreases a.len(),
{
    if a.len() > 0 && b.len() > 0 && c.len() > 0 && a[0] == b[0] && b[0] == c[0] {
        lemma_text_less_transitive(a.drop_first(), b.drop_first(), c.drop_first());
    }
}

pub proof fn lemma_text_less_irreflexive(a: Seq<char>)
    ensures
        !text_less(a, a),
    decreases a.len(),
{
    if a.len() > 0 {
        lemma_text_less_irreflexive(a.drop_first());
    }
}

/// Compares two strings in `text_less` order.
pub fn str_less(a: &str, b: &str) -> (r: bool)
    ensures
        r == text_less(a@, b@),
{
    let n = a.unicode_len();
    let m = b.unicode_len();
    let mut i: usize = 0;
    assert(a@.skip(0) =~= a@);
    assert(b@.skip(0) =~= b@);
    while i < n && i < m
        invariant
            n == a@.len(),
            m == b@.len(),
            i <= n,
            i <= m,
            text_less(a@, b@) == text_less(a@.skip(i as int), b@.skip(i as int)),
        decreases n - i,
    {
        let x = a.get_char(i);
        let y = b.get_char(i);
        assert(a@.skip(i as int)[0] == x);
        assert(b@.skip(i as int)[0] == y);
        if x != y {
            return (x as u32) < (y as u32);
        }
        assert(a@.skip(i as int).drop_first() =~= a@.skip(i + 1));
        assert(b@.skip(i as int).drop_first() =~= b@.skip(i + 1));
        i = i + 1;
    }
    i < m
}

/// The path of an entry named `name` inside the directory at `rel`.
pub open spec fn child_path_spec(rel: Seq<char>, name: Seq<char>) -> Seq<char> {
    if rel.len() == 0 {
        name
    } else {
        rel + seq!['/'] + name
    }
}

/// Builds the logical path of entry `name` inside the directory at `rel`.
pub fn child_path(rel: &str, name: &str) -> (r: String)
    ensures
        r@ == child_path_spec(rel@, name@),
{
    if rel.unicode_len() == 0 {
        String::from_str(name)
    } else {
        proof {
            reveal_strlit("/");
        }
        let mut out = String::from_str(rel);
        out.append("/");
        out.append(name);
        out
    }
}

} // verus!
