//! Name and content search over the files of a subtree.

use vstd::prelude::*;
use crate::error::StoreError;
use crate::sandbox::{segments, split_segments, views};
use crate::text::{contains_str, lower_of, lowercase, occurs_in};

verus! {

/// Files larger than this many bytes are never searched by content.
pub const MAX_CONTENT_BYTES: u64 = 1000000;

/// Why a file was reported.
#[derive(Debug, Clone, Copy, PartialEq, Eq, Structural)]
pub enum MatchKind {
    Name,
    Content,
}

impl MatchKind {
    /// The label clients see: `name` or `content`.
    pub fn label(&self) -> (r: &'static str)
        ensures
            r@ == match self {
                MatchKind::Name => seq!['n', 'a', 'm', 'e'],
                MatchKind::Content => seq!['c', 'o', 'n', 't', 'e', 'n', 't'],
            },
    {
        match self {
            MatchKind::Name => {
                proof {
                    reveal_strlit("name");
                }
                "name"
            },
            MatchKind::Content => {
                proof {
                    reveal_strlit("content");
                }
                "content"
            },
        }
    }
}

/// One search result: a `/`-separated path relative to the searched root.
#[derive(Debug)]
pub struct SearchHit {
    pub path: String,
    pub matched: MatchKind,
}

/// A regular file met by the walk.
#[derive(Debug)]
pub struct FileEntry {
    /// `/`-separated path relative to the searched root.
    pub path: String,
    /// Size in bytes.
    pub size: u64,
    /// The file's text, where it was read and decoded.
    pub content: Option<String>,
}

/// Matching on folded text: the file name first; the content only when the
/// name does not match.
pub open spec fn match_folded_spec(
    needle: Seq<char>,
    name: Seq<char>,
    content: Option<Seq<char>>,
) -> Option<MatchKind> {
    if occurs_in(name, needle) {
        Some(MatchKind::Name)
    } else {
        match content {
            Some(c) => if occurs_in(c, needle) {
                Some(MatchKind::Content)
            } else {
                None
            },
            None => None,
        }
    }
}

/// The content that takes part in matching: the folded text of a file of
/// at most `MAX_CONTENT_BYTES` bytes that was read as text.
pub open spec fn searchable_content(f: FileEntry) -> Option<Seq<char>> {
    match f.content {
        Some(c) => if f.size <= MAX_CONTENT_BYTES {
            Some(lower_of(c@))
        } else {
            None
        },
        None => None,
    }
}

/// The file name in a `/`-separated path: its last piece.
pub open spec fn file_name(path: Seq<char>) -> Seq<char> {
    segments(path).last()
}

/// How a file matches a folded query, if at all: by its file name, else by
/// its content.
pub open spec fn file_match(needle: Seq<char>, f: FileEntry) -> Option<MatchKind> {
    match_folded_spec(needle, lower_of(file_name(f.path@)), searchable_content(f))
}

/// The hits of a walk, in walk order: one per matching file.
pub open spec fn hits_spec(needle: Seq<char>, files: Seq<FileEntry>) -> Seq<(Seq<char>, MatchKind)>
    decreases files.len(),
{
    if files.len() == 0 {
        seq![]
    } else {
        let rest = hits_spec(needle, files.drop_last());
        match file_match(needle, files.last()) {
            Some(k) => rest.push((files.last().path@, k)),
            None => rest,
        }
    }
}

/// The (path, kind) pairs of a list of hits.
pub open spec fn hit_views(h: Seq<SearchHit>) -> Seq<(Seq<char>, MatchKind)> {
    h.map_values(|x: SearchHit| (x.path@, x.matched))
}

/// A file whose name matches is reported by name, whatever its content.
pub proof fn lemma_name_match_wins(needle: Seq<char>, f: FileEntry)
    requires
        occurs_in(lower_of(file_name(f.path@)), needle),
    ensures
        file_match(needle, f) == Some(MatchKind::Name),
{
}

/// A search reports each file at most once.
pub proof fn lemma_at_most_one_hit_per_file(needle: Seq<char>, files: Seq<FileEntry>)
    ensures
        hits_spec(needle, files).len() <= files.len(),
    decreases files.len(),
{
    if files.len() > 0 {
        lemma_at_most_one_hit_per_file(needle, files.drop_last());
    }
}

/// Checks and folds a query: an empty one is a `BadRequest`.
pub fn prepare_query(q: &str) -> (r: Result<String, StoreError>)
    ensures
        match r {
            Ok(n) => q@.len() > 0 && n@ == lower_of(q@),
            Err(e) => q@.len() == 0 && e == StoreError::BadRequest,
        },
{
    if q.unicode_len() == 0 {
        Err(StoreError::BadRequest)
    } else {
        Ok(lowercase(q))
    }
}

/// Matches already-folded text against a folded query.
pub fn match_folded(needle: &str, name: &str, content: Option<&str>) -> (r: Option<MatchKind>)
    ensures
        r == match_folded_spec(
            needle@,
            name@,
            match content {
                Some(c) => Some(c@),
                None => None,
            },
        ),
{
    if contains_str(name, needle) {
        Some(MatchKind::Name)
    } else {
        match content {
            Some(c) => if contains_str(c, needle) {
                Some(MatchKind::Content)
            } else {
                None
            },
            None => None,
        }
    }
}

/// Decides whether and how one file matches the folded query `needle`.
pub fn classify(needle: &str, file: &FileEntry) -> (r: Option<MatchKind>)
    ensures
        r == file_match(needle@, *file),
{
    let pieces = split_segments(file.path.as_str());
    assert(views(pieces@).len() == pieces@.len());
    let last = pieces.len() - 1;
    assert(views(pieces@)[last as int] == pieces@[last as int]@);
    let name = lowercase(pieces[last].as_str());
    if contains_str(name.as_str(), needle) {
        return Some(MatchKind::Name);
    }
    match &file.content {
        Some(c) => if file.size <= MAX_CONTENT_BYTES {
            let folded = lowercase(c.as_str());
            match_folded(needle, name.as_str(), Some(folded.as_str()))
        } else {
            match_folded(needle, name.as_str(), None)
        },
        None => match_folded(needle, name.as_str(), None),
    }
}

/// Collects the hits of the folded query `needle` over the files of a walk.
pub fn search_files(needle: &str, files: &Vec<FileEntry>) -> (r: Vec<SearchHit>)
    ensures
        hit_views(r@) == hits_spec(needle@, files@),
{
    let mut out: Vec<SearchHit> = Vec::new();
    let mut i: usize = 0;
    assert(files@.take(0) =~= Seq::<FileEntry>::empty());
    assert(hit_views(out@) =~= Seq::<(Seq<char>, MatchKind)>::empty());
    while i < files.len()
        invariant
            i <= files@.len(),
            hit_views(out@) == hits_spec(needle@, files@.take(i as int)),
        decreases files.len() - i,
    {
        let f = &files[i];
        assert(files@.take(i + 1).drop_last() =~= files@.take(i as int));
        assert(files@.take(i + 1).last() == *f);
        match classify(needle, f) {
            Some(k) => {
                let ghost before = out@;
                out.push(SearchHit { path: f.path.clone(), matched: k });
                assert(hit_views(out@) =~= hit_views(before).push((f.path@, k)));
            },
            None => {},
        }
        i = i + 1;
    }
    assert(files@.take(files@.len() as int) =~= files@);
    out
}

} // verus!
