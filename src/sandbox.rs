//! Syntactic confinement of client paths to a root directory.

use vstd::prelude::*;
use crate::error::StoreError;

verus! {

/// Splitting state after reading `s`: the finished pieces and the piece in progress.
pub open spec fn split_state(s: Seq<char>) -> (Seq<Seq<char>>, Seq<char>)
    decreases s.len(),
{
    if s.len() == 0 {
        (seq![], seq![])
    } else {
        let prev = split_state(s.drop_last());
        if s.last() == '/' {
            (prev.0.push(prev.1), seq![])
        } else {
            (prev.0, prev.1.push(s.last()))
        }
    }
}

/// The pieces of `s` between `/` separators, empty pieces included.
pub open spec fn segments(s: Seq<char>) -> Seq<Seq<char>> {
    split_state(s).0.push(split_state(s).1)
}

/// A parent-directory component.
pub open spec fn is_parent(c: Seq<char>) -> bool {
    c == seq!['.', '.']
}

/// A component that names no step: empty, or the current directory.
pub open spec fn is_skipped(c: Seq<char>) -> bool {
    c.len() == 0 || c == seq!['.']
}

/// A component that names a child entry.
pub open spec fn is_normal(c: Seq<char>) -> bool {
    !is_skipped(c) && !is_parent(c) && !c.contains('/')
}

/// The path is absolute or names a parent directory somewhere.
pub open spec fn escapes(s: Seq<char>) -> bool {
    (s.len() > 0 && s[0] == '/') || exists|i: int|
        0 <= i < segments(s).len() && is_parent(#[trigger] segments(s)[i])
}

/// The pieces that remain once empty and current-directory pieces are dropped.
pub open spec fn kept_parts(segs: Seq<Seq<char>>) -> Seq<Seq<char>>
    decreases segs.len(),
{
    if segs.len() == 0 {
        seq![]
    } else {
        let rest = kept_parts(segs.drop_last());
        if is_skipped(segs.last()) {
            rest
        } else {
            rest.push(segs.last())
        }
    }
}

/// The outcome of resolving a client path: its components, or `PathEscape`.
pub open spec fn resolve_spec(s: Seq<char>) -> Result<Seq<Seq<char>>, StoreError> {
    if escapes(s) {
        Err(StoreError::PathEscape)
    } else {
        Ok(kept_parts(segments(s)))
    }
}

/// The character views of a sequence of strings.
pub open spec fn views(v: Seq<String>) -> Seq<Seq<char>> {
    v.map_values(|x: String| x@)
}

/// `base` followed by `/` and each part in turn.
pub open spec fn joined(base: Seq<char>, parts: Seq<Seq<char>>) -> Seq<char>
    decreases parts.len(),
{
    if parts.len() == 0 {
        base
    } else {
        joined(base, parts.drop_last()) + seq!['/'] + parts.last()
    }
}

proof fn lemma_views_push(v: Seq<String>, x: String)
    ensures
        views(v.push(x)) == views(v).push(x@),
{
    assert(views(v.push(x)) =~= views(v).push(x@));
}

proof fn lemma_split_state_has_no_separator(s: Seq<char>)
    ensures
        forall|k: int|
            0 <= k < split_state(s).0.len() ==> !(#[trigger] split_state(s).0[k]).contains('/'),
        !split_state(s).1.contains('/'),
    decreases s.len(),
{
    if s.len() > 0 {
        lemma_split_state_has_no_separator(s.drop_last());
        let prev = split_state(s.drop_last());
        if s.last() == '/' {
            assert forall|k: int| 0 <= k < split_state(s).0.len() implies !(
            #[trigger] split_state(s).0[k]).contains('/') by {
                if k < prev.0.len() {
                    assert(split_state(s).0[k] == prev.0[k]);
                } else {
                    assert(split_state(s).0[k] == prev.1);
                }
            }
            assert(!Seq::<char>::empty().contains('/'));
        } else {
            assert forall|j: int| 0 <= j < prev.1.push(s.last()).len() implies prev.1.push(
                s.last(),
            )[j] != '/' by {
                if j < prev.1.len() {
                    assert(prev.1.push(s.last())[j] == prev.1[j]);
                }
            }
        }
    }
}

proof fn lemma_segments_have_no_separator(s: Seq<char>)
    ensures
        forall|k: int| 0 <= k < segments(s).len() ==> !(#[trigger] segments(s)[k]).contains('/'),
{
    lemma_split_state_has_no_separator(s);
    assert forall|k: int| 0 <= k < segments(s).len() implies !(
    #[trigger] segments(s)[k]).contains('/') by {
        if k < split_state(s).0.len() {
            assert(segments(s)[k] == split_state(s).0[k]);
        }
    }
}

proof fn lemma_kept_parts_normal(segs: Seq<Seq<char>>)
    requires
        forall|j: int|
            0 <= j < segs.len() ==> !(#[trigger] segs[j]).contains('/') && !is_parent(segs[j]),
    ensures
        forall|k: int| 0 <= k < kept_parts(segs).len() ==> is_normal(#[trigger] kept_parts(segs)[k]),
    decreases segs.len(),
{
    if segs.len() > 0 {
        let init = segs.drop_last();
        assert forall|j: int| 0 <= j < init.len() implies !(#[trigger] init[j]).contains('/')
            && !is_parent(init[j]) by {
            assert(init[j] == segs[j]);
        }
        lemma_kept_parts_normal(init);
        assert(segs.last() == segs[segs.len() - 1]);
        let rest = kept_parts(init);
        if !is_skipped(segs.last()) {
            assert forall|k: int| 0 <= k < kept_parts(segs).len() implies is_normal(
                #[trigger] kept_parts(segs)[k],
            ) by {
                if k < rest.len() {
                    assert(kept_parts(segs)[k] == rest[k]);
                }
            }
        }
    }
}

proof fn lemma_joined_keeps_base(base: Seq<char>, parts: Seq<Seq<char>>)
    ensures
        base.len() <= joined(base, parts).len(),
        joined(base, parts).take(base.len() as int) == base,
    decreases parts.len(),
{
    if parts.len() > 0 {
        lemma_joined_keeps_base(base, parts.drop_last());
        let prev = joined(base, parts.drop_last());
        assert((prev + seq!['/'] + parts.last()).take(base.len() as int) =~= prev.take(
            base.len() as int,
        ));
    }
}

/// An absolute path, or one with a parent-directory component, is refused
/// with `PathEscape`.
pub proof fn lemma_escaping_paths_refused(s: Seq<char>)
    requires
        (s.len() > 0 && s[0] == '/') || exists|i: int|
            0 <= i < segments(s).len() && is_parent(#[trigger] segments(s)[i]),
    ensures
        resolve_spec(s) == Err::<Seq<Seq<char>>, StoreError>(StoreError::PathEscape),
{
}

/// A path that the resolver accepts lands inside the root: the physical path
/// begins with the root, and every component after it names a child entry
/// (never empty, `.`, `..`, nor holding a separator).
pub proof fn lemma_resolved_paths_stay_inside(root: Seq<char>, s: Seq<char>, parts: Seq<Seq<char>>)
    requires
        resolve_spec(s) == Ok::<Seq<Seq<char>>, StoreError>(parts),
    ensures
        joined(root, parts).take(root.len() as int) == root,
        forall|k: int| 0 <= k < parts.len() ==> is_normal(#[trigger] parts[k]),
{
    lemma_segments_have_no_separator(s);
    lemma_kept_parts_normal(segments(s));
    lemma_joined_keeps_base(root, parts);
}

/// Splits `s` at every `/`.
pub fn split_segments(s: &str) -> (r: Vec<String>)
    ensures
        views(r@) == segments(s@),
{
    let n = s.unicode_len();
    let mut out: Vec<String> = Vec::new();
    let mut start: usize = 0;
    let mut i: usize = 0;
    assert(s@.take(0) =~= Seq::<char>::empty());
    assert(views(out@) =~= Seq::<Seq<char>>::empty());
    while i < n
        invariant
            n == s@.len(),
            start <= i <= n,
            split_state(s@.take(i as int)) == (views(out@), s@.subrange(start as int, i as int)),
        decreases n - i,
    {
        let c = s.get_char(i);
        assert(s@.take(i + 1).drop_last() =~= s@.take(i as int));
        assert(s@.take(i + 1).last() == c);
        if c == '/' {
            let piece = s.substring_char(start, i);
            let ghost before = out@;
            out.push(String::from_str(piece));
            proof {
                lemma_views_push(before, out@.last());
                assert(out@ =~= before.push(out@.last()));
            }
            start = i + 1;
            assert(s@.subrange(start as int, i + 1) =~= Seq::<char>::empty());
        } else {
            assert(s@.subrange(start as int, i + 1) =~= s@.subrange(start as int, i as int).push(c));
        }
        i = i + 1;
    }
    assert(s@.take(n as int) =~= s@);
    let last = s.substring_char(start, n);
    let ghost before = out@;
    out.push(String::from_str(last));
    proof {
        lemma_views_push(before, out@.last());
        assert(out@ =~= before.push(out@.last()));
    }
    out
}

fn is_parent_str(c: &String) -> (r: bool)
    ensures
        r == is_parent(c@),
{
    if c.unicode_len() == 2 {
        let a = c.as_str().get_char(0);
        let b = c.as_str().get_char(1);
        if a == '.' && b == '.' {
            assert(c@ =~= seq!['.', '.']);
            true
        } else {
            false
        }
    } else {
        false
    }
}

fn is_skipped_str(c: &String) -> (r: bool)
    ensures
        r == is_skipped(c@),
{
    let n = c.unicode_len();
    if n == 0 {
        true
    } else if n == 1 {
        let a = c.as_str().get_char(0);
        if a == '.' {
            assert(c@ =~= seq!['.']);
            true
        } else {
            false
        }
    } else {
        false
    }
}

/// Resolves a client path into the components it names below the root.
/// Fails with `PathEscape` exactly when the path is absolute or has a
/// parent-directory component; empty and `.` components are dropped.
pub fn resolve(user: &str) -> (r: Result<Vec<String>, StoreError>)
    ensures
        match r {
            Ok(parts) => resolve_spec(user@) == Ok::<Seq<Seq<char>>, StoreError>(views(parts@)),
            Err(e) => resolve_spec(user@) == Err::<Seq<Seq<char>>, StoreError>(e),
        },
{
    if user.unicode_len() > 0 && user.get_char(0) == '/' {
        return Err(StoreError::PathEscape);
    }
    let segs = split_segments(user);
    let mut parts: Vec<String> = Vec::new();
    let mut i: usize = 0;
    assert(views(segs@).take(0) =~= Seq::<Seq<char>>::empty());
    assert(views(parts@) =~= Seq::<Seq<char>>::empty());
    while i < segs.len()
        invariant
            views(segs@) == segments(user@),
            i <= segs@.len(),
            views(parts@) == kept_parts(views(segs@).take(i as int)),
            forall|j: int| 0 <= j < i ==> !is_parent(#[trigger] segments(user@)[j]),
        decreases segs.len() - i,
    {
        let seg = &segs[i];
        assert(views(segs@)[i as int] == seg@);
        assert(views(segs@).take(i + 1).drop_last() =~= views(segs@).take(i as int));
        if is_parent_str(seg) {
            assert(is_parent(segments(user@)[i as int]));
            return Err(StoreError::PathEscape);
        }
        if !is_skipped_str(seg) {
            let ghost before = parts@;
            parts.push(seg.clone());
            proof {
                lemma_views_push(before, parts@.last());
                assert(parts@ =~= before.push(parts@.last()));
            }
        }
        i = i + 1;
    }
    assert(views(segs@).take(segs@.len() as int) =~= views(segs@));
    Ok(parts)
}

/// Appends `/` and each part to `base`.
pub fn join_under(base: &str, parts: &Vec<String>) -> (r: String)
    ensures
        r@ == joined(base@, views(parts@)),
{
    let mut out = String::from_str(base);
    let mut i: usize = 0;
    assert(views(parts@).take(0) =~= Seq::<Seq<char>>::empty());
    proof {
        reveal_strlit("/");
    }
    while i < parts.len()
        invariant
            i <= parts@.len(),
            out@ == joined(base@, views(parts@).take(i as int)),
            "/"@ == seq!['/'],
        decreases parts.len() - i,
    {
        assert(views(parts@).take(i + 1).drop_last() =~= views(parts@).take(i as int));
        assert(views(parts@)[i as int] == parts@[i as int]@);
        out.append("/");
        out.append(parts[i].as_str());
        i = i + 1;
    }
    assert(views(parts@).take(parts@.len() as int) =~= views(parts@));
    out
}

/// Resolves a client path and places it below `root`.
pub fn resolve_under(root: &str, user: &str) -> (r: Result<String, StoreError>)
    ensures
        match r {
            Ok(p) => !escapes(user@) && p@ == joined(root@, kept_parts(segments(user@))),
            Err(e) => escapes(user@) && e == StoreError::PathEscape,
        },
{
    match resolve(user) {
        Ok(parts) => Ok(join_under(root, &parts)),
        Err(e) => Err(e),
    }
}

} // verus!
