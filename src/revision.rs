//! The revision store: the HEAD marker and the numbered revision directories.

use vstd::prelude::*;
use crate::error::StoreError;
use crate::sandbox::{escapes, joined, kept_parts, resolve_under, segments};

verus! {

/// `c` is white space in the Unicode sense, as `char::is_whitespace` decides.
pub open spec fn is_space(c: char) -> bool {
    let u = c as u32;
    (0x09 <= u <= 0x0d) || u == 0x20 || u == 0x85 || u == 0xa0 || u == 0x1680 || (0x2000 <= u
        <= 0x200a) || u == 0x2028 || u == 0x2029 || u == 0x202f || u == 0x205f || u == 0x3000
}

/// `s` without its leading white space.
pub open spec fn trim_start(s: Seq<char>) -> Seq<char>
    decreases s.len(),
{
    if s.len() > 0 && is_space(s[0]) {
        trim_start(s.drop_first())
    } else {
        s
    }
}

/// `s` without its trailing white space.
pub open spec fn trim_end(s: Seq<char>) -> Seq<char>
    decreases s.len(),
{
    if s.len() > 0 && is_space(s.last()) {
        trim_end(s.drop_last())
    } else {
        s
    }
}

/// `s` without white space at either end.
pub open spec fn trimmed(s: Seq<char>) -> Seq<char> {
    trim_end(trim_start(s))
}

pub open spec fn is_digit(c: char) -> bool {
    48 <= (c as u32) <= 57
}

pub open spec fn digit_value(c: char) -> int {
    (c as u32) - 48
}

/// The number that a run of decimal digits denotes.
pub open spec fn digits_value(d: Seq<char>) -> int
    decreases d.len(),
{
    if d.len() == 0 {
        0
    } else {
        digits_value(d.drop_last()) * 10 + digit_value(d.last())
    }
}

pub open spec fn all_digits(d: Seq<char>) -> bool {
    forall|i: int| 0 <= i < d.len() ==> is_digit(#[trigger] d[i])
}

/// The digits of an unsigned number, after an optional `+`.
pub open spec fn unsigned_digits(t: Seq<char>) -> Seq<char> {
    if t.len() > 0 && t[0] == '+' {
        t.drop_first()
    } else {
        t
    }
}

/// The `u64` that `t` spells in decimal, if any: an optional `+`, one or
/// more digits, and a value that fits.
pub open spec fn parse_u64_spec(t: Seq<char>) -> Option<u64> {
    let d = unsigned_digits(t);
    if d.len() > 0 && all_digits(d) && digits_value(d) <= u64::MAX {
        Some(digits_value(d) as u64)
    } else {
        None
    }
}

/// The HEAD value a marker's text denotes: its trimmed decimal value, or 0
/// where the text is not a number.
pub open spec fn head_from_marker(s: Seq<char>) -> u64 {
    match parse_u64_spec(trimmed(s)) {
        Some(v) => v,
        None => 0,
    }
}

pub open spec fn digit_char(d: int) -> char {
    seq!['0', '1', '2', '3', '4', '5', '6', '7', '8', '9'][d]
}

/// The decimal spelling of `n`, without sign or leading zeros.
pub open spec fn decimal_spec(n: nat) -> Seq<char>
    decreases n,
{
    if n < 10 {
        seq![digit_char(n as int)]
    } else {
        decimal_spec(n / 10).push(digit_char((n % 10) as int))
    }
}

/// The directory of revision `id` below `root`.
pub open spec fn revision_dir_spec(root: Seq<char>, id: u64) -> Seq<char> {
    root + seq!['/'] + decimal_spec(id as nat)
}

fn is_space_char(c: char) -> (r: bool)
    ensures
        r == is_space(c),
{
    let u = c as u32;
    (0x09 <= u && u <= 0x0d) || u == 0x20 || u == 0x85 || u == 0xa0 || u == 0x1680 || (0x2000
        <= u && u <= 0x200a) || u == 0x2028 || u == 0x2029 || u == 0x202f || u == 0x205f || u
        == 0x3000
}

proof fn lemma_digits_value_nonneg(d: Seq<char>)
    requires
        all_digits(d),
    ensures
        digits_value(d) >= 0,
    decreases d.len(),
{
    if d.len() > 0 {
        assert(all_digits(d.drop_last())) by {
            assert forall|i: int| 0 <= i < d.drop_last().len() implies is_digit(
                #[trigger] d.drop_last()[i],
            ) by {
                assert(d.drop_last()[i] == d[i]);
            }
        }
        lemma_digits_value_nonneg(d.drop_last());
        assert(is_digit(d[d.len() - 1]));
    }
}

proof fn lemma_digits_value_grows(d: Seq<char>, i: int)
    requires
        all_digits(d),
        0 <= i <= d.len(),
    ensures
        digits_value(d.take(i)) <= digits_value(d),
    decreases d.len(),
{
    if i < d.len() {
        let init = d.drop_last();
        assert(all_digits(init)) by {
            assert forall|j: int| 0 <= j < init.len() implies is_digit(#[trigger] init[j]) by {
                assert(init[j] == d[j]);
            }
        }
        lemma_digits_value_grows(init, i);
        lemma_digits_value_nonneg(init);
        assert(init.take(i) =~= d.take(i));
        assert(is_digit(d[d.len() - 1]));
    } else {
        assert(d.take(i) =~= d);
    }
}

/// Reads a `u64` in decimal, with an optional leading `+`.
pub fn parse_u64(t: &str) -> (r: Option<u64>)
    ensures
        r == parse_u64_spec(t@),
{
    let n = t.unicode_len();
    let mut i: usize = 0;
    if n > 0 && t.get_char(0) == '+' {
        i = 1;
    }
    let start = i;
    let ghost d = unsigned_digits(t@);
    assert(d =~= t@.subrange(start as int, n as int));
    if start == n {
        return None;
    }
    let mut value: u64 = 0;
    assert(d.take(0) =~= Seq::<char>::empty());
    while i < n
        invariant
            n == t@.len(),
            d == unsigned_digits(t@),
            d == t@.subrange(start as int, n as int),
            start < n,
            start <= i <= n,
            all_digits(d.take(i - start)),
            value as int == digits_value(d.take(i - start)),
        decreases n - i,
    {
        let c = t.get_char(i);
        let ghost k = i - start;
        assert(d[k] == c);
        if !((c as u32) >= 48 && (c as u32) <= 57) {
            assert(!is_digit(d[k]));
            assert(!all_digits(d));
            assert(parse_u64_spec(t@).is_none());
            return None;
        }
        let dv = (c as u32 - 48) as u64;
        assert(d.take(k + 1).drop_last() =~= d.take(k));
        assert(d.take(k + 1).last() == c);
        assert(digit_value(c) == dv);
        assert(digits_value(d.take(k + 1)) == digits_value(d.take(k)) * 10 + dv);
        assert(all_digits(d.take(k + 1))) by {
            assert forall|j: int| 0 <= j < k + 1 implies is_digit(#[trigger] d.take(k + 1)[j]) by {
                if j < k {
                    assert(d.take(k + 1)[j] == d.take(k)[j]);
                }
            }
        }
        if value > 1844674407370955161 || (value == 1844674407370955161 && dv > 5) {
            proof {
                assert(digits_value(d.take(k + 1)) > u64::MAX);
                if all_digits(d) {
                    lemma_digits_value_grows(d, k + 1);
                }
                assert(parse_u64_spec(t@).is_none());
            }
            return None;
        }
        value = value * 10 + dv;
        i = i + 1;
    }
    assert(d.take(n - start) =~= d);
    Some(value)
}

/// Strips white space from both ends of `s`.
pub fn trim(s: &str) -> (r: &str)
    ensures
        r@ == trimmed(s@),
{
    let n = s.unicode_len();
    let mut lo: usize = 0;
    assert(s@.skip(0) =~= s@);
    while lo < n && is_space_char(s.get_char(lo))
        invariant
            n == s@.len(),
            lo <= n,
            trim_start(s@) == trim_start(s@.skip(lo as int)),
        decreases n - lo,
    {
        assert(s@.skip(lo as int).drop_first() =~= s@.skip(lo + 1));
        lo = lo + 1;
    }
    let t = s.substring_char(lo, n);
    assert(t@ =~= s@.skip(lo as int));
    let m = t.unicode_len();
    let mut hi: usize = m;
    assert(t@.take(m as int) =~= t@);
    while hi > 0 && is_space_char(t.get_char(hi - 1))
        invariant
            m == t@.len(),
            hi <= m,
            trim_end(t@) == trim_end(t@.take(hi as int)),
        decreases hi,
    {
        assert(t@.take(hi as int).drop_last() =~= t@.take(hi - 1));
        hi = hi - 1;
    }
    let r = t.substring_char(0, hi);
    assert(r@ =~= t@.take(hi as int));
    r
}

fn digit_str(d: u64) -> (r: &'static str)
    requires
        d < 10,
    ensures
        r@ == seq![digit_char(d as int)],
{
    let digits = "0123456789";
    proof {
        reveal_strlit("0123456789");
    }
    let r = digits.substring_char(d as usize, (d + 1) as usize);
    assert(r@ =~= seq![digit_char(d as int)]);
    r
}

/// Spells `n` in decimal.
pub fn decimal(n: u64) -> (r: String)
    ensures
        r@ == decimal_spec(n as nat),
    decreases n,
{
    if n < 10 {
        String::from_str(digit_str(n))
    } else {
        let mut s = decimal(n / 10);
        s.append(digit_str(n % 10));
        s
    }
}

/// The directory that holds revision `id` below `root`.
pub fn revision_dir(root: &str, id: u64) -> (r: String)
    ensures
        r@ == revision_dir_spec(root@, id),
{
    proof {
        reveal_strlit("/");
    }
    let mut s = String::from_str(root);
    s.append("/");
    let d = decimal(id);
    s.append(d.as_str());
    s
}

/// Resolves a client path inside revision `id`: the physical path of what it
/// names, or `PathEscape`.
pub fn revision_path(root: &str, id: u64, user: &str) -> (r: Result<String, StoreError>)
    ensures
        match r {
            Ok(p) => !escapes(user@) && p@ == joined(
                revision_dir_spec(root@, id),
                kept_parts(segments(user@)),
            ),
            Err(e) => escapes(user@) && e == StoreError::PathEscape,
        },
{
    let dir = revision_dir(root, id);
    resolve_under(dir.as_str(), user)
}

/// The state of the revision store: HEAD, the id of the latest revision.
/// Revisions `0..=head` all exist; the one numbered `head` is the working copy.
#[derive(Debug, Clone, Copy, PartialEq, Eq, Structural)]
pub struct RevisionStore {
    pub head: u64,
}

/// One bump, as the store performs it under its lock: `after` follows
/// `before`, and `id` is the revision it allocated.
pub open spec fn bump_step(before: RevisionStore, after: RevisionStore, id: u64) -> bool {
    before.head < u64::MAX && id == before.head + 1 && after.head == id
}

/// The ids `0..=head`, ascending.
pub open spec fn revision_ids(head: u64) -> Seq<u64> {
    Seq::new((head + 1) as nat, |i: int| i as u64)
}

impl RevisionStore {
    /// The store as bootstrapped: only revision 0 exists.
    pub fn new() -> (r: RevisionStore)
        ensures
            r.head == 0,
    {
        RevisionStore { head: 0 }
    }

    /// The store whose HEAD marker holds `text`; an unreadable or
    /// unparsable marker counts as 0.
    pub fn from_marker(text: &str) -> (r: RevisionStore)
        ensures
            r.head == head_from_marker(text@),
    {
        let t = trim(text);
        match parse_u64(t) {
            Some(v) => RevisionStore { head: v },
            None => RevisionStore { head: 0 },
        }
    }

    /// The latest revision id.
    pub fn latest(&self) -> (r: u64)
        ensures
            r == self.head,
    {
        self.head
    }

    /// The text to persist as the HEAD marker.
    pub fn marker(&self) -> (r: String)
        ensures
            r@ == decimal_spec(self.head as nat),
    {
        decimal(self.head)
    }

    /// Allocates the next revision id and advances HEAD to it. Fails, with
    /// HEAD unchanged, only when no further id exists.
    pub fn bump(&mut self) -> (r: Result<u64, StoreError>)
        ensures
            match r {
                Ok(id) => bump_step(*old(self), *final(self), id),
                Err(e) => old(self).head == u64::MAX && e == StoreError::Internal && *final(self)
                    == *old(self),
            },
    {
        if self.head == u64::MAX {
            return Err(StoreError::Internal);
        }
        self.head = self.head + 1;
        Ok(self.head)
    }

    /// Every revision id, `0..=head`, ascending.
    pub fn list(&self) -> (r: Vec<u64>)
        requires
            self.head < usize::MAX,
        ensures
            r@ == revision_ids(self.head),
    {
        let mut out: Vec<u64> = Vec::new();
        let n: u64 = self.head + 1;
        let mut i: u64 = 0;
        while i < n
            invariant
                n == self.head + 1,
                i <= n,
                out@ == Seq::new(i as nat, |k: int| k as u64),
            decreases n - i,
        {
            out.push(i);
            assert(out@ =~= Seq::new((i + 1) as nat, |k: int| k as u64));
            i = i + 1;
        }
        assert(out@ =~= revision_ids(self.head));
        out
    }
}

/// What creating a revision asks of the disk: make `dir`, then write
/// `marker` as the new HEAD.
#[derive(Debug)]
pub struct BumpPlan {
    pub id: u64,
    pub dir: String,
    pub marker: String,
}

/// Plans the metadata part of creating a revision, given the HEAD marker's
/// current text. The directory comes before the marker, so that HEAD never
/// names a revision that does not exist.
pub fn plan_bump(root: &str, marker_text: &str) -> (r: Result<BumpPlan, StoreError>)
    ensures
        match r {
            Ok(p) => bump_step(
                RevisionStore { head: head_from_marker(marker_text@) },
                RevisionStore { head: p.id },
                p.id,
            ) && p.dir@ == revision_dir_spec(root@, p.id) && p.marker@ == decimal_spec(
                p.id as nat,
            ),
            Err(e) => head_from_marker(marker_text@) == u64::MAX && e == StoreError::Internal,
        },
{
    let mut store = RevisionStore::from_marker(marker_text);
    match store.bump() {
        Ok(id) => Ok(BumpPlan { id, dir: revision_dir(root, id), marker: store.marker() }),
        Err(e) => Err(e),
    }
}

proof fn lemma_digit_char(d: int)
    requires
        0 <= d < 10,
    ensures
        is_digit(digit_char(d)),
        digit_value(digit_char(d)) == d,
{
    let s = seq!['0', '1', '2', '3', '4', '5', '6', '7', '8', '9'];
    assert(s[0] == '0' && s[1] == '1' && s[2] == '2' && s[3] == '3' && s[4] == '4');
    assert(s[5] == '5' && s[6] == '6' && s[7] == '7' && s[8] == '8' && s[9] == '9');
}

proof fn lemma_decimal_digits(n: nat)
    ensures
        decimal_spec(n).len() > 0,
        all_digits(decimal_spec(n)),
        digits_value(decimal_spec(n)) == n,
    decreases n,
{
    if n < 10 {
        lemma_digit_char(n as int);
        let s = decimal_spec(n);
        assert(s.drop_last() =~= Seq::<char>::empty());
        assert(s.last() == digit_char(n as int));
        assert(digits_value(s.drop_last()) == 0);
        assert(digits_value(s) == digits_value(s.drop_last()) * 10 + digit_value(s.last()));
    } else {
        lemma_decimal_digits(n / 10);
        lemma_digit_char((n % 10) as int);
        let p = decimal_spec(n / 10);
        let s = decimal_spec(n);
        assert(s.drop_last() =~= p);
        assert forall|i: int| 0 <= i < s.len() implies is_digit(#[trigger] s[i]) by {
            if i < p.len() {
                assert(s[i] == p[i]);
            }
        }
        assert(s.last() == digit_char((n % 10) as int));
        assert(n == (n / 10) * 10 + n % 10);
        assert(digits_value(s) == digits_value(s.drop_last()) * 10 + digit_value(s.last()));
    }
}

/// Writing HEAD and reading it back gives the same value: the marker text
/// of `n` denotes `n`.
pub proof fn lemma_marker_round_trip(n: u64)
    ensures
        head_from_marker(decimal_spec(n as nat)) == n,
{
    let s = decimal_spec(n as nat);
    lemma_decimal_digits(n as nat);
    assert(is_digit(s[0]) && is_digit(s[s.len() - 1]));
    assert(trim_start(s) == s);
    assert(trim_end(s) == s);
    assert(unsigned_digits(s) == s);
}

proof fn lemma_bump_heads(stores: Seq<RevisionStore>, ids: Seq<u64>, k: int)
    requires
        stores.len() == ids.len() + 1,
        forall|j: int| 0 <= j < ids.len() ==> bump_step(stores[j], #[trigger] stores[j + 1], ids[j]),
        0 <= k < stores.len(),
    ensures
        stores[k].head == stores[0].head + k,
    decreases k,
{
    if k > 0 {
        lemma_bump_heads(stores, ids, k - 1);
        assert(bump_step(stores[k - 1], stores[(k - 1) + 1], ids[k - 1]));
    }
}

/// Bumps that the store's lock serializes allocate consecutive ids: after
/// N bumps from HEAD h the ids handed out are exactly h+1, ..., h+N, each
/// once, in that order, and HEAD is h+N.
pub proof fn lemma_bumps_gap_free(stores: Seq<RevisionStore>, ids: Seq<u64>)
    requires
        stores.len() == ids.len() + 1,
        forall|j: int| 0 <= j < ids.len() ==> bump_step(stores[j], #[trigger] stores[j + 1], ids[j]),
    ensures
        forall|k: int| 0 <= k < ids.len() ==> #[trigger] ids[k] == stores[0].head + k + 1,
        stores.last().head == stores[0].head + ids.len(),
        ids.no_duplicates(),
        forall|x: u64| ids.contains(x) <==> stores[0].head < x <= stores[0].head + ids.len(),
{
    let h = stores[0].head;
    assert forall|k: int| 0 <= k < ids.len() implies #[trigger] ids[k] == h + k + 1 by {
        lemma_bump_heads(stores, ids, k);
        assert(bump_step(stores[k], stores[k + 1], ids[k]));
    }
    lemma_bump_heads(stores, ids, ids.len() as int);
    assert forall|x: u64| stores[0].head < x <= stores[0].head + ids.len() implies ids.contains(
        x,
    ) by {
        let k = x - h - 1;
        assert(ids[k] == x);
    }
}

} // verus!
