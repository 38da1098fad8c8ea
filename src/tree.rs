//! Directory listings as ordered trees of nodes.

use vstd::prelude::*;
use vstd::multiset::Multiset;
use crate::text::{lower_of, lowercase, str_less, text_less, lemma_text_less_transitive,
    lemma_text_less_irreflexive};

verus! {

/// One filesystem entry as a client sees it.
#[derive(Debug)]
pub struct Node {
    pub name: String,
    /// Path relative to the listed root, `/`-separated.
    pub path: String,
    pub is_directory: bool,
    /// Last modification, in seconds since the epoch.
    pub modified: i64,
    /// Size in bytes; directories have none.
    pub size: Option<u64>,
    /// The ordered children of a directory.
    pub children: Option<Vec<Node>>,
}

/// Listing order on (is-directory, folded name) keys: directories first,
/// then by folded name.
pub open spec fn key_before(a_dir: bool, a_key: Seq<char>, b_dir: bool, b_key: Seq<char>) -> bool {
    (a_dir && !b_dir) || (a_dir == b_dir && text_less(a_key, b_key))
}

/// `a` is listed strictly before `b`: directories first, then
/// case-insensitive name order.
pub open spec fn node_before(a: Node, b: Node) -> bool {
    key_before(a.is_directory, lower_of(a.name@), b.is_directory, lower_of(b.name@))
}

/// No node is listed strictly before one that precedes it in `s`.
pub open spec fn listing_ordered(s: Seq<Node>) -> bool {
    forall|i: int, j: int| 0 <= i < j < s.len() ==> !node_before(#[trigger] s[j], #[trigger] s[i])
}

/// Decides `key_before` on already-folded names.
pub fn key_precedes(a_dir: bool, a_key: &str, b_dir: bool, b_key: &str) -> (r: bool)
    ensures
        r == key_before(a_dir, a_key@, b_dir, b_key@),
{
    if a_dir != b_dir {
        a_dir
    } else {
        str_less(a_key, b_key)
    }
}

/// Orders one directory level for listing: directories first, then by
/// case-insensitive name.
pub fn sort_nodes(nodes: Vec<Node>) -> (r: Vec<Node>)
    ensures
        r@.to_multiset() == nodes@.to_multiset(),
        listing_ordered(r@),
{
    broadcast use vstd::seq_lib::group_to_multiset_ensures;

    let mut input = nodes;
    let ghost orig = input@;
    let mut out: Vec<Node> = Vec::new();
    let mut keys: Vec<String> = Vec::new();
    // take nodes from the back so that each is a cheap pop
    let mut rev: Vec<Node> = Vec::new();
    while input.len() > 0
        invariant
            rev@.to_multiset().add(input@.to_multiset()) == orig.to_multiset(),
        decreases input.len(),
    {
        let ghost before = input@;
        let x = input.pop().unwrap();
        proof {
            assert(before =~= input@.push(x));
            input@.to_multiset_ensures();
            rev@.to_multiset_ensures();
            assert(before.to_multiset() =~= input@.to_multiset().insert(x));
            assert(rev@.push(x).to_multiset() =~= rev@.to_multiset().insert(x));
        }
        rev.push(x);
        assert(rev@.to_multiset().add(input@.to_multiset()) =~= orig.to_multiset());
    }
    assert(rev@.to_multiset() =~= orig.to_multiset());
    let ghost all = rev@;
    while rev.len() > 0
        invariant
            out@.len() == keys@.len(),
            forall|k: int| 0 <= k < keys@.len() ==> (#[trigger] keys@[k])@ == lower_of(out@[k].name@),
            listing_ordered(out@),
            out@.to_multiset().add(rev@.to_multiset()) == orig.to_multiset(),
        decreases rev.len(),
    {
        let ghost before_rev = rev@;
        let x = rev.pop().unwrap();
        proof {
            assert(before_rev =~= rev@.push(x));
        }
        let key = lowercase(x.name.as_str());
        let mut pos: usize = 0;
        while pos < out.len() && !key_precedes(
            x.is_directory,
            key.as_str(),
            out[pos].is_directory,
            keys[pos].as_str(),
        )
            invariant
                out@.len() == keys@.len(),
                pos <= out@.len(),
                key@ == lower_of(x.name@),
                forall|k: int| 0 <= k < keys@.len() ==> (#[trigger] keys@[k])@ == lower_of(out@[k].name@),
                forall|k: int| 0 <= k < pos ==> !node_before(x, #[trigger] out@[k]),
            decreases out@.len() - pos,
        {
            pos = pos + 1;
        }
        let ghost prev = out@;
        proof {
            if pos < prev.len() {
                assert(node_before(x, prev[pos as int]));
            }
            assert forall|k: int| pos <= k < prev.len() implies !node_before(
                #[trigger] prev[k],
                x,
            ) by {
                if node_before(prev[k], x) {
                    if k > pos {
                        assert(!node_before(prev[k], prev[pos as int]));
                    }
                    let a = prev[k];
                    let b = x;
                    let c = prev[pos as int];
                    if a.is_directory == b.is_directory && b.is_directory == c.is_directory {
                        lemma_text_less_transitive(lower_of(a.name@), lower_of(b.name@), lower_of(c.name@));
                    }
                    if k == pos {
                        lemma_text_less_irreflexive(lower_of(a.name@));
                    }
                }
            }
            prev.insert_ensures(pos as int, x);
        }
        out.insert(pos, x);
        keys.insert(pos, key);
        proof {
            assert(out@ == prev.insert(pos as int, x));
            assert(out@.remove(pos as int) =~= prev);
            assert(out@[pos as int] == x);
            out@.to_multiset_ensures();
            assert(out@.remove(pos as int).to_multiset() =~= out@.to_multiset().remove(x));
            assert(out@.to_multiset().count(x) > 0) by {
                assert(out@.contains(x));
            }
            assert(out@.to_multiset() =~= prev.to_multiset().insert(x));
            rev@.to_multiset_ensures();
            assert(rev@.push(x).to_multiset() =~= rev@.to_multiset().insert(x));
            assert(out@.to_multiset().add(rev@.to_multiset()) =~= orig.to_multiset());
            assert forall|a: int, b: int| 0 <= a < b < out@.len() implies !node_before(
                #[trigger] out@[b],
                #[trigger] out@[a],
            ) by {
                if a < pos && b < pos {
                    assert(out@[a] == prev[a] && out@[b] == prev[b]);
                } else if a < pos && b == pos {
                    assert(out@[a] == prev[a]);
                } else if a < pos {
                    assert(out@[a] == prev[a] && out@[b] == prev[b - 1]);
                    let p = prev[a];
                    let q = prev[b - 1];
                    if pos < prev.len() && node_before(q, p) {
                        assert(false);
                    }
                } else if a == pos {
                    assert(out@[b] == prev[b - 1]);
                } else {
                    assert(out@[a] == prev[a - 1] && out@[b] == prev[b - 1]);
                }
            }
            assert forall|k: int| 0 <= k < keys@.len() implies (#[trigger] keys@[k])@ == lower_of(
                out@[k].name@,
            ) by {
                if k < pos {
                } else if k > pos {
                    assert(out@[k] == prev[k - 1]);
                }
            }
        }
    }
    assert(rev@.to_multiset() =~= Multiset::empty());
    assert(out@.to_multiset() =~= orig.to_multiset());
    out
}

} // verus!
