//! Archive import: turning an uploaded, text-encoded zip archive into the
//! directory and file writes that populate a new revision.

use vstd::prelude::*;
use base64::Engine;
use std::io::Read;
use vstd::string::StringSliceAdditionalSpecFns;
use crate::error::StoreError;
use crate::sandbox::{escapes, joined, kept_parts, resolve_under, segments};

verus! {

#[verifier::external_type_specification]
#[verifier::external_body]
pub struct ExDecodeError(base64::DecodeError);

#[verifier::external_type_specification]
#[verifier::external_body]
pub struct ExZipError(zip::result::ZipError);

#[verifier::external_type_specification]
#[verifier::external_body]
#[verifier::reject_recursive_types(R)]
pub struct ExZipArchive<R>(zip::ZipArchive<R>);

#[verifier::external_type_specification]
#[verifier::external_body]
#[verifier::reject_recursive_types(T)]
pub struct ExCursor<T>(std::io::Cursor<T>);

/// The bytes that standard, padded base64 text decodes to; `None` where the
/// text is not valid base64.
pub uninterp spec fn base64_decoded(text: Seq<u8>) -> Option<Seq<u8>>;

/// Relies on `base64::engine::general_purpose::STANDARD.decode`: the bytes
/// that the text encodes, or an error where it is not valid base64; the
/// outcome depends on the text alone.
#[verifier::external_body]
fn decode_base64(text: &[u8]) -> (r: Result<Vec<u8>, base64::DecodeError>)
    ensures
        match r {
            Ok(v) => base64_decoded(text@) == Some(v@),
            Err(_) => base64_decoded(text@).is_none(),
        },
{
    base64::engine::general_purpose::STANDARD.decode(text)
}

/// The number of entries in the central directory of a zip archive held in
/// `bytes`; `None` where that directory cannot be read.
pub uninterp spec fn zip_count(bytes: Seq<u8>) -> Option<nat>;

/// Entry `i` of the zip archive held in `bytes`: its stored name and its
/// decompressed bytes; `None` where that entry cannot be read.
pub uninterp spec fn zip_entry(bytes: Seq<u8>, i: nat) -> Option<(Seq<char>, Seq<u8>)>;

/// The bytes that an opened archive reads from.
pub uninterp spec fn archive_source(a: zip::ZipArchive<std::io::Cursor<Vec<u8>>>) -> Seq<u8>;

/// The entries of the zip archive held in `bytes`, in order; `None` where the
/// archive or any of its entries cannot be read.
pub open spec fn zip_entries(bytes: Seq<u8>) -> Option<Seq<(Seq<char>, Seq<u8>)>> {
    match zip_count(bytes) {
        Some(n) => if forall|i: nat| i < n ==> (#[trigger] zip_entry(bytes, i)).is_some() {
            Some(Seq::new(n, |i: int| zip_entry(bytes, i as nat).unwrap()))
        } else {
            None
        },
        None => None,
    }
}

/// Relies on `zip::ZipArchive::new`: reads the archive's central directory
/// from the bytes, or fails; the archive then reads from those bytes.
#[verifier::external_body]
fn open_archive(bytes: Vec<u8>) -> (r: Result<
    zip::ZipArchive<std::io::Cursor<Vec<u8>>>,
    zip::result::ZipError,
>)
    ensures
        match r {
            Ok(a) => archive_source(a) == bytes@ && zip_count(bytes@).is_some(),
            Err(_) => zip_count(bytes@).is_none(),
        },
{
    zip::ZipArchive::new(std::io::Cursor::new(bytes))
}

/// Relies on `zip::ZipArchive::len`: the number of entries in the central
/// directory.
#[verifier::external_body]
fn archive_len(a: &zip::ZipArchive<std::io::Cursor<Vec<u8>>>) -> (r: usize)
    ensures
        zip_count(archive_source(*a)) == Some(r as nat),
{
    a.len()
}

/// Relies on `zip::ZipArchive::by_index_decrypt` with an empty password, which
/// reads unencrypted entries as they are and reports a wrong password as a
/// value, then `ZipFile::name` for the stored name and `Read::read_to_end`
/// for the decompressed bytes. An index past the end is an error.
#[verifier::external_body]
fn read_entry(a: &mut zip::ZipArchive<std::io::Cursor<Vec<u8>>>, i: usize) -> (r: Result<
    ArchiveEntry,
    zip::result::ZipError,
>)
    ensures
        archive_source(*final(a)) == archive_source(*old(a)),
        match r {
            Ok(e) => zip_entry(archive_source(*old(a)), i as nat) == Some((e.name@, e.data@)),
            Err(_) => zip_entry(archive_source(*old(a)), i as nat).is_none(),
        },
{
    let mut f = match a.by_index_decrypt(i, b"")? {
        Ok(f) => f,
        Err(_) => return Err(zip::result::ZipError::UnsupportedArchive(
            zip::result::ZipError::PASSWORD_REQUIRED,
        )),
    };
    let name = f.name().to_string();
    let mut data = Vec::new();
    f.read_to_end(&mut data)?;
    Ok(ArchiveEntry { name, data })
}

/// One entry of an archive: its stored name and its bytes.
#[derive(Debug)]
pub struct ArchiveEntry {
    pub name: String,
    pub data: Vec<u8>,
}

/// A write that extraction asks of the disk.
#[derive(Debug)]
pub enum ExtractAction {
    /// Create this directory and any missing parents.
    CreateDir { path: String },
    /// Create the parents of this path, then write the bytes there.
    WriteFile { path: String, data: Vec<u8> },
}

/// A stored name that denotes a directory: it ends with a separator.
pub open spec fn names_directory(name: Seq<char>) -> bool {
    name.len() > 0 && (name.last() == '/' || name.last() == '\\')
}

/// `a` is the write that extracting an entry with this name and these bytes
/// into `dest` takes.
pub open spec fn action_for_parts(
    dest: Seq<char>,
    name: Seq<char>,
    bytes: Seq<u8>,
    a: ExtractAction,
) -> bool {
    let target = joined(dest, kept_parts(segments(name)));
    match a {
        ExtractAction::CreateDir { path } => names_directory(name) && path@ == target,
        ExtractAction::WriteFile { path, data } => !names_directory(name) && path@ == target
            && data@ == bytes,
    }
}

/// `a` is the write that extracting `e` into `dest` takes.
pub open spec fn action_for(dest: Seq<char>, e: ArchiveEntry, a: ExtractAction) -> bool {
    action_for_parts(dest, e.name@, e.data@, a)
}

/// Some entry's name leaves the destination.
pub open spec fn some_entry_escapes(entries: Seq<ArchiveEntry>) -> bool {
    exists|k: int| 0 <= k < entries.len() && escapes(#[trigger] entries[k].name@)
}

fn ends_with_separator(name: &String) -> (r: bool)
    ensures
        r == names_directory(name@),
{
    let n = name.unicode_len();
    if n == 0 {
        false
    } else {
        let c = name.as_str().get_char(n - 1);
        c == '/' || c == '\\'
    }
}

/// The write that extracts one entry below `dest`; `PathEscape` where the
/// entry's name is absolute or climbs out.
pub fn entry_action(dest: &str, e: &ArchiveEntry) -> (r: Result<ExtractAction, StoreError>)
    ensures
        match r {
            Ok(a) => !escapes(e.name@) && action_for(dest@, *e, a),
            Err(err) => escapes(e.name@) && err == StoreError::PathEscape,
        },
{
    broadcast use vstd::std_specs::vec::vec_clone_deep_view_proof;

    let path = match resolve_under(dest, e.name.as_str()) {
        Ok(p) => p,
        Err(err) => return Err(err),
    };
    if ends_with_separator(&e.name) {
        Ok(ExtractAction::CreateDir { path })
    } else {
        let data = e.data.clone();
        assert(data@ =~= e.data@);
        Ok(ExtractAction::WriteFile { path, data })
    }
}

/// The writes that extract every entry below `dest`, in archive order; the
/// whole archive is refused with `PathEscape` if any entry leaves `dest`.
pub fn plan_entries(dest: &str, entries: &Vec<ArchiveEntry>) -> (r: Result<
    Vec<ExtractAction>,
    StoreError,
>)
    ensures
        match r {
            Ok(actions) => !some_entry_escapes(entries@) && actions@.len() == entries@.len()
                && forall|k: int|
                0 <= k < entries@.len() ==> action_for(dest@, #[trigger] entries@[k], actions@[k]),
            Err(err) => some_entry_escapes(entries@) && err == StoreError::PathEscape,
        },
{
    let mut out: Vec<ExtractAction> = Vec::new();
    let mut i: usize = 0;
    while i < entries.len()
        invariant
            i <= entries@.len(),
            out@.len() == i,
            forall|k: int| 0 <= k < i ==> !escapes(#[trigger] entries@[k].name@),
            forall|k: int| 0 <= k < i ==> action_for(dest@, #[trigger] entries@[k], out@[k]),
        decreases entries.len() - i,
    {
        match entry_action(dest, &entries[i]) {
            Ok(a) => out.push(a),
            Err(err) => {
                assert(escapes(entries@[i as int].name@));
                return Err(err);
            },
        }
        i = i + 1;
    }
    Ok(out)
}

/// Some (name, bytes) entry's name leaves the destination.
pub open spec fn listed_entry_escapes(es: Seq<(Seq<char>, Seq<u8>)>) -> bool {
    exists|k: int| 0 <= k < es.len() && escapes(#[trigger] es[k].0)
}

/// `actions` are the writes that extract the (name, bytes) entries `es`
/// below `dest`, one per entry, in order.
pub open spec fn extracts_entries(
    dest: Seq<char>,
    es: Seq<(Seq<char>, Seq<u8>)>,
    actions: Seq<ExtractAction>,
) -> bool {
    actions.len() == es.len() && forall|k: int|
        0 <= k < es.len() ==> action_for_parts(dest, (#[trigger] es[k]).0, es[k].1, actions[k])
}

/// Decodes an uploaded archive and plans its extraction below `dest`.
/// Every failure is reported as `Internal`: text that is not base64, bytes
/// that are not a readable zip archive, or an archive with an entry that
/// leaves `dest`. Otherwise there is one write per entry, in archive order.
pub fn plan_import(dest: &str, payload: &str) -> (r: Result<Vec<ExtractAction>, StoreError>)
    ensures
        match base64_decoded(payload.spec_bytes()) {
            None => r == Err::<Vec<ExtractAction>, StoreError>(StoreError::Internal),
            Some(b) => match zip_entries(b) {
                None => r == Err::<Vec<ExtractAction>, StoreError>(StoreError::Internal),
                Some(es) => match r {
                    Ok(actions) => !listed_entry_escapes(es) && extracts_entries(
                        dest@,
                        es,
                        actions@,
                    ),
                    Err(e) => listed_entry_escapes(es) && e == StoreError::Internal,
                },
            },
        },
{
    let bytes = match decode_base64(payload.as_bytes()) {
        Ok(b) => b,
        Err(_) => return Err(StoreError::Internal),
    };
    let ghost b = bytes@;
    assert(base64_decoded(payload.spec_bytes()) == Some(b));
    let mut archive = match open_archive(bytes) {
        Ok(a) => a,
        Err(_) => return Err(StoreError::Internal),
    };
    let n = archive_len(&archive);
    let mut entries: Vec<ArchiveEntry> = Vec::new();
    let mut i: usize = 0;
    while i < n
        invariant
            i <= n,
            archive_source(archive) == b,
            base64_decoded(payload.spec_bytes()) == Some(b),
            zip_count(b) == Some(n as nat),
            entries@.len() == i,
            forall|k: int|
                0 <= k < i ==> zip_entry(b, k as nat) == Some(
                    ((#[trigger] entries@[k]).name@, entries@[k].data@),
                ),
        decreases n - i,
    {
        match read_entry(&mut archive, i) {
            Ok(e) => entries.push(e),
            Err(_) => {
                assert(!(forall|j: nat| j < n ==> (#[trigger] zip_entry(b, j)).is_some()));
                assert(zip_entries(b).is_none());
                return Err(StoreError::Internal);
            },
        }
        i = i + 1;
    }
    let ghost es = Seq::new(n as nat, |k: int| zip_entry(b, k as nat).unwrap());
    assert forall|j: nat| j < n implies (#[trigger] zip_entry(b, j)).is_some() by {
        assert(zip_entry(b, j) == Some((entries@[j as int].name@, entries@[j as int].data@)));
    }
    assert(zip_entries(b) == Some(es));
    assert forall|k: int| 0 <= k < es.len() implies (#[trigger] es[k]) == (
        entries@[k].name@,
        entries@[k].data@,
    ) by {
        assert(zip_entry(b, k as nat) == Some((entries@[k].name@, entries@[k].data@)));
    }
    match plan_entries(dest, &entries) {
        Ok(actions) => {
            assert forall|k: int| 0 <= k < es.len() implies !escapes(#[trigger] es[k].0) by {
                assert(es[k].0 == entries@[k].name@);
            }
            assert forall|k: int| 0 <= k < es.len() implies action_for_parts(
                dest@,
                (#[trigger] es[k]).0,
                es[k].1,
                actions@[k],
            ) by {
                assert(action_for(dest@, entries@[k], actions@[k]));
            }
            assert(!listed_entry_escapes(es));
            assert(extracts_entries(dest@, es, actions@));
            Ok(actions)
        },
        Err(_) => {
            let ghost k = choose|k: int| 0 <= k < entries@.len() && escapes(#[trigger] entries@[k].name@);
            assert(escapes(es[k].0));
            assert(listed_entry_escapes(es));
            Err(StoreError::Internal)
        },
    }
}

} // verus!
