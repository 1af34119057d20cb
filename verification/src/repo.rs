//! The state of a repository and the operations on it: the first snapshot,
//! further snapshots, the changes since a snapshot, and the files of an
//! earlier snapshot.
use vstd::prelude::*;
use vstd::slice::slice_to_vec;
use crate::bytes::append;
use crate::codec::{decode, decode_record, encode, entries_view, payload_text, record_text};
use crate::codec::{FileEntry, NEWLINE};
use crate::encoding::{all_encode_well, encoded_files};
use crate::error::Error;
use crate::ids::{fresh_id, is_id_text};
use crate::log::{append_record, appended, find_line, find_record};
use crate::meta::{changed_paths, children_view, compare, find_entry, lookup, paths_view};
use crate::meta::{put, put_entry, MetaChildren, MetaView, MetadataEntry, MetadataNode};
use crate::tree::{captured, listing_view, meta_children, scan, scan_metadata};
use crate::tree::{TreeEntry, TreeView};

verus! {

/// A repository: the content log, the metadata of each snapshot under its
/// identifier, the identifier that the status is taken against, and the
/// history that is shown to the user.
#[derive(Debug, PartialEq, Eq)]
pub struct Repository {
    pub log: Vec<u8>,
    pub metadata: Vec<MetadataEntry>,
    pub last: Vec<u8>,
    pub history: Vec<u8>,
}

/// What a repository holds.
pub struct RepoView {
    pub log: Seq<u8>,
    pub metadata: MetaChildren,
    pub last: Seq<u8>,
    pub history: Seq<u8>,
}

impl View for Repository {
    type V = RepoView;

    open spec fn view(&self) -> RepoView {
        RepoView {
            log: self.log@,
            metadata: children_view(self.metadata@),
            last: self.last@,
            history: self.history@,
        }
    }
}

/// The title of the first snapshot: `init`.
pub open spec fn init_title() -> Seq<u8> {
    seq![105u8, 110u8, 105u8, 116u8]
}

/// The line of the history for a snapshot: `ID:`, the identifier,
/// ` Title:` and the title.
pub open spec fn history_line(id: Seq<u8>, title: Seq<u8>) -> Seq<u8> {
    seq![73u8, 68u8, 58u8] + id + seq![32u8, 84u8, 105u8, 116u8, 108u8, 101u8, 58u8] + title
}

/// The record of a snapshot of a listing.
pub open spec fn snapshot_text(
    id: Seq<u8>,
    title: Seq<u8>,
    listing: Seq<TreeView>,
    ignore: Seq<u8>,
) -> Seq<u8> {
    record_text(id, title, payload_text(encoded_files(captured(listing, ignore))))
}

/// The metadata tree of a snapshot of a listing.
pub open spec fn snapshot_meta(listing: Seq<TreeView>, ignore: Seq<u8>) -> MetaView {
    MetaView::Dir { children: meta_children(listing, ignore) }
}

/// The repository after its first snapshot.
pub open spec fn initial(id: Seq<u8>, listing: Seq<TreeView>, ignore: Seq<u8>) -> RepoView {
    RepoView {
        log: snapshot_text(id, init_title(), listing, ignore),
        metadata: seq![(id, snapshot_meta(listing, ignore))],
        last: id,
        history: history_line(id, init_title()),
    }
}

/// The repository after one more snapshot.
pub open spec fn committed(
    repo: RepoView,
    id: Seq<u8>,
    title: Seq<u8>,
    listing: Seq<TreeView>,
    ignore: Seq<u8>,
) -> RepoView {
    RepoView {
        log: appended(repo.log, snapshot_text(id, title, listing, ignore)),
        metadata: put(repo.metadata, id, snapshot_meta(listing, ignore)),
        last: id,
        history: repo.history + seq![NEWLINE] + history_line(id, title),
    }
}

/// The files of the snapshot `id` of a log: those of the first record with
/// that identifier.
pub open spec fn restored(log: Seq<u8>, id: Seq<u8>) -> Result<Seq<(Seq<u8>, Seq<u8>)>, Error> {
    match find_line(log, id) {
        None => Err(Error::RecordNotFound),
        Some(record) => match decode_record(record) {
            None => Err(Error::MalformedStore),
            Some(snapshot) => Ok(snapshot.files),
        },
    }
}

/// Writes the line of the history for a snapshot.
pub fn history_entry(id: &[u8], title: &[u8]) -> (r: Vec<u8>)
    ensures
        r@ == history_line(id@, title@),
{
    let mut r: Vec<u8> = Vec::new();
    r.push(73u8);
    r.push(68u8);
    r.push(58u8);
    append(&mut r, id);
    r.push(32u8);
    r.push(84u8);
    r.push(105u8);
    r.push(116u8);
    r.push(108u8);
    r.push(101u8);
    r.push(58u8);
    append(&mut r, title);
    assert(r@ =~= history_line(id@, title@));
    r
}

fn init_title_bytes() -> (r: Vec<u8>)
    ensures
        r@ == init_title(),
{
    let mut r: Vec<u8> = Vec::new();
    r.push(105u8);
    r.push(110u8);
    r.push(105u8);
    r.push(116u8);
    assert(r@ =~= init_title());
    r
}

/// Takes the first snapshot of a listing under the given identifier: the
/// log holds its record, with the title `init`; the metadata holds its
/// tree; the identifier is the one that the status is taken against.
pub fn init_with(id: &[u8], entries: &Vec<TreeEntry>, ignore: &[u8]) -> (repo: Repository)
    ensures
        repo@ == initial(id@, listing_view(entries@), ignore@),
        all_encode_well(captured(listing_view(entries@), ignore@)),
{
    let title = init_title_bytes();
    let scanned = scan(entries, ignore);
    let log = encode(id, title.as_slice(), scanned.payload.as_slice());
    let mut metadata: Vec<MetadataEntry> = Vec::new();
    let key = slice_to_vec(id);
    metadata.push(MetadataEntry { path: key, node: scanned.metadata });
    assert(children_view(metadata@) =~= seq![
        (id@, snapshot_meta(listing_view(entries@), ignore@)),
    ]);
    let last = slice_to_vec(id);
    let history = history_entry(id, title.as_slice());
    Repository { log, metadata, last, history }
}

/// Takes one more snapshot of a listing under the given identifier: its
/// record is added to the log, its tree is put into the metadata under the
/// identifier, the identifier becomes the one that the status is taken
/// against, and the history gets a line.
pub fn commit_with(
    repo: &mut Repository,
    id: &[u8],
    title: &[u8],
    entries: &Vec<TreeEntry>,
    ignore: &[u8],
)
    ensures
        final(repo)@ == committed(old(repo)@, id@, title@, listing_view(entries@), ignore@),
        all_encode_well(captured(listing_view(entries@), ignore@)),
{
    let scanned = scan(entries, ignore);
    let record = encode(id, title, scanned.payload.as_slice());
    append_record(&mut repo.log, record.as_slice());
    let key = slice_to_vec(id);
    put_entry(&mut repo.metadata, key, scanned.metadata);
    let last = slice_to_vec(id);
    repo.last = last;
    let line = history_entry(id, title);
    repo.history.push(NEWLINE);
    append(&mut repo.history, line.as_slice());
    assert(repo.history@ =~= old(repo).history@ + seq![NEWLINE] + history_line(id@, title@));
}

/// Takes the first snapshot of a listing under a fresh identifier.
pub fn init(entries: &Vec<TreeEntry>, ignore: &[u8]) -> (repo: Repository)
    ensures
        is_id_text(repo.last@),
        repo@ == initial(repo.last@, listing_view(entries@), ignore@),
        all_encode_well(captured(listing_view(entries@), ignore@)),
{
    let id = fresh_id();
    init_with(id.as_slice(), entries, ignore)
}

/// Takes one more snapshot of a listing under a fresh identifier.
pub fn commit(repo: &mut Repository, title: &[u8], entries: &Vec<TreeEntry>, ignore: &[u8])
    ensures
        is_id_text(final(repo).last@),
        final(repo)@ == committed(
            old(repo)@,
            final(repo).last@,
            title@,
            listing_view(entries@),
            ignore@,
        ),
        all_encode_well(captured(listing_view(entries@), ignore@)),
{
    let id = fresh_id();
    commit_with(repo, id.as_slice(), title, entries, ignore);
}

/// Goes back to the snapshot `id`: the identifier becomes the one that the
/// status is taken against, whether or not the log holds it, and the files
/// of the first record with that identifier are given, each with its path
/// and its content, for the caller to write. Nothing else of the
/// repository changes.
pub fn restore(repo: &mut Repository, id: &[u8]) -> (r: Result<Vec<FileEntry>, Error>)
    ensures
        final(repo)@ == (RepoView { last: id@, ..old(repo)@ }),
        match r {
            Ok(files) => restored(old(repo).log@, id@) == Ok::<Seq<(Seq<u8>, Seq<u8>)>, Error>(
                entries_view(files@),
            ),
            Err(e) => restored(old(repo).log@, id@) == Err::<Seq<(Seq<u8>, Seq<u8>)>, Error>(e),
        },
{
    let last = slice_to_vec(id);
    repo.last = last;
    let record = match find_record(repo.log.as_slice(), id) {
        Ok(record) => record,
        Err(e) => { return Err(e); },
    };
    match decode(record.as_slice()) {
        Ok(snapshot) => Ok(snapshot.files),
        Err(e) => Err(e),
    }
}

/// The metadata tree stored under `id`; fails where there is none.
pub fn get_metadata<'a>(store: &'a Vec<MetadataEntry>, id: &[u8]) -> (r: Result<
    &'a MetadataNode,
    Error,
>)
    ensures
        match r {
            Ok(tree) => lookup(children_view(store@), id@) == Some(tree@),
            Err(e) => e == Error::RecordNotFound && lookup(children_view(store@), id@) is None,
        },
{
    match find_entry(store, id) {
        Some(i) => {
            assert(children_view(store@)[i as int] == store@[i as int]@);
            Ok(&store[i].node)
        },
        None => Err(Error::RecordNotFound),
    }
}

/// The paths that changed between the snapshot that the status is taken
/// against and the listing; fails where the metadata holds no tree for
/// that snapshot.
pub fn status(repo: &Repository, entries: &Vec<TreeEntry>, ignore: &[u8]) -> (r: Result<
    Vec<Vec<u8>>,
    Error,
>)
    ensures
        match r {
            Ok(paths) => lookup(repo@.metadata, repo@.last) matches Some(reference)
                && paths_view(paths@) == changed_paths(
                reference,
                snapshot_meta(listing_view(entries@), ignore@),
            ),
            Err(e) => e == Error::RecordNotFound && lookup(repo@.metadata, repo@.last) is None,
        },
{
    let reference = match get_metadata(&repo.metadata, repo.last.as_slice()) {
        Ok(tree) => tree,
        Err(e) => { return Err(e); },
    };
    let current = scan_metadata(entries, ignore);
    Ok(compare(reference, &current))
}

} // verus!
