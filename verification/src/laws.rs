//! What holds of snapshots taken one after another.
use vstd::prelude::*;
use crate::bytes::free_of;
use crate::codec::{colon_free, colon_free_entry, decode_record, entry_text, id_separator};
use crate::codec::{lemma_decode_inverts_encode, lemma_parse_record_text, payload_text};
use crate::codec::{title_separator, RecordView, COLON, NEWLINE};
use crate::encoding::{all_encode_well, encoded_files, lemma_encoded_files};
use crate::error::Error;
use crate::log::{has_id, lemma_line_index, lemma_lines_appended};
use crate::log::{lemma_one_line, line_index, lines};
use crate::meta::{distinct_keys, key_index, lemma_key_index, lemma_put};
use crate::repo::{committed, init_title, initial, restored, snapshot_meta, snapshot_text};
use crate::repo::RepoView;
use crate::tree::{captured, TreeView};

verus! {

/// The text holds neither a colon nor a newline.
pub open spec fn plain(s: Seq<u8>) -> bool {
    free_of(s, COLON) && free_of(s, NEWLINE)
}

/// The path of the file holds neither a colon nor a newline.
pub open spec fn plain_path(file: (Seq<u8>, Seq<u8>)) -> bool {
    plain(file.0)
}

/// No path of the files holds a colon or a newline.
pub open spec fn plain_paths(files: Seq<(Seq<u8>, Seq<u8>)>) -> bool {
    forall|k: int| 0 <= k < files.len() ==> plain_path(#[trigger] files[k])
}

/// The path of the file holds no colon.
pub open spec fn colon_free_path(file: (Seq<u8>, Seq<u8>)) -> bool {
    free_of(file.0, COLON)
}

/// A snapshot whose record can be taken apart again: identifier, title and
/// paths hold no colon, and every content encodes well, which a scan
/// establishes of what it captures.
pub open spec fn separable(
    id: Seq<u8>,
    title: Seq<u8>,
    listing: Seq<TreeView>,
    ignore: Seq<u8>,
) -> bool {
    &&& free_of(id, COLON)
    &&& free_of(title, COLON)
    &&& forall|k: int|
        0 <= k < captured(listing, ignore).len() ==> colon_free_path(
            #[trigger] captured(listing, ignore)[k],
        )
    &&& all_encode_well(captured(listing, ignore))
}

/// A snapshot that a log holds without ambiguity: identifier, title and
/// paths hold neither a colon nor a newline, and every content encodes
/// well, which a scan establishes of what it captures.
pub open spec fn unambiguous(
    id: Seq<u8>,
    title: Seq<u8>,
    listing: Seq<TreeView>,
    ignore: Seq<u8>,
) -> bool {
    &&& plain(id)
    &&& plain(title)
    &&& plain_paths(captured(listing, ignore))
    &&& all_encode_well(captured(listing, ignore))
}

proof fn lemma_free_of_concat(a: Seq<u8>, b: Seq<u8>, x: u8)
    requires
        free_of(a, x),
        free_of(b, x),
    ensures
        free_of(a + b, x),
{
    assert forall|i: int| 0 <= i < (a + b).len() implies (a + b)[i] != x by {
        if i < a.len() {
            assert((a + b)[i] == a[i]);
        } else {
            assert((a + b)[i] == b[i - a.len()]);
        }
    }
}

proof fn lemma_payload_one_line(files: Seq<(Seq<u8>, Seq<u8>)>)
    requires
        forall|k: int|
            0 <= k < files.len() ==> free_of((#[trigger] files[k]).0, NEWLINE) && free_of(
                files[k].1,
                NEWLINE,
            ),
    ensures
        free_of(payload_text(files), NEWLINE),
    decreases files.len(),
{
    if files.len() != 0 {
        let rest = files.skip(1);
        assert forall|k: int| 0 <= k < rest.len() implies free_of((#[trigger] rest[k]).0, NEWLINE)
            && free_of(rest[k].1, NEWLINE) by {
            assert(rest[k] == files[k + 1]);
        }
        lemma_payload_one_line(rest);
        let first = files[0];
        assert(free_of(first.0, NEWLINE) && free_of(first.1, NEWLINE));
        let colon = seq![COLON];
        lemma_free_of_concat(first.0, colon, NEWLINE);
        lemma_free_of_concat(first.0 + colon, first.1, NEWLINE);
        lemma_free_of_concat(first.0 + colon + first.1, colon, NEWLINE);
        lemma_free_of_concat(entry_text(first.0, first.1), payload_text(rest), NEWLINE);
    }
}

/// The texts of the files of a separable snapshot hold no colon.
proof fn lemma_texts_colon_free(
    id: Seq<u8>,
    title: Seq<u8>,
    listing: Seq<TreeView>,
    ignore: Seq<u8>,
)
    requires
        separable(id, title, listing, ignore),
    ensures
        colon_free(encoded_files(captured(listing, ignore))),
{
    let files = captured(listing, ignore);
    let texts = encoded_files(files);
    lemma_encoded_files(files);
    assert forall|k: int| 0 <= k < texts.len() implies colon_free_entry(#[trigger] texts[k]) by {
        assert(colon_free_path(files[k]));
    }
}

/// An unambiguous snapshot is separable.
proof fn lemma_unambiguous_separable(
    id: Seq<u8>,
    title: Seq<u8>,
    listing: Seq<TreeView>,
    ignore: Seq<u8>,
)
    requires
        unambiguous(id, title, listing, ignore),
    ensures
        separable(id, title, listing, ignore),
{
    let files = captured(listing, ignore);
    assert forall|k: int| 0 <= k < files.len() implies colon_free_path(#[trigger] files[k]) by {
        assert(plain_path(files[k]));
    }
}

/// The record of an unambiguous snapshot holds no newline.
proof fn lemma_texts(id: Seq<u8>, title: Seq<u8>, listing: Seq<TreeView>, ignore: Seq<u8>)
    requires
        unambiguous(id, title, listing, ignore),
    ensures
        free_of(snapshot_text(id, title, listing, ignore), NEWLINE),
{
    let files = captured(listing, ignore);
    let texts = encoded_files(files);
    lemma_encoded_files(files);
    assert forall|k: int| 0 <= k < texts.len() implies free_of((#[trigger] texts[k]).0, NEWLINE)
        && free_of(texts[k].1, NEWLINE) by {
        assert(plain_path(files[k]));
    }
    lemma_payload_one_line(texts);
    let payload = payload_text(texts);
    lemma_free_of_concat(id, id_separator(), NEWLINE);
    lemma_free_of_concat(id + id_separator(), title, NEWLINE);
    lemma_free_of_concat(id + id_separator() + title, title_separator(), NEWLINE);
    lemma_free_of_concat(id + id_separator() + title + title_separator(), payload, NEWLINE);
}

/// Decoding the record of a snapshot gives its identifier, its title and
/// exactly the files that the scan captured, each with its path and its
/// content, where identifier, title and paths hold no colon.
pub proof fn lemma_snapshot_round_trip(
    id: Seq<u8>,
    title: Seq<u8>,
    listing: Seq<TreeView>,
    ignore: Seq<u8>,
)
    requires
        separable(id, title, listing, ignore),
    ensures
        decode_record(snapshot_text(id, title, listing, ignore)) == Some(
            RecordView { id, title, files: captured(listing, ignore) },
        ),
        has_id(snapshot_text(id, title, listing, ignore), id),
{
    let files = captured(listing, ignore);
    let texts = encoded_files(files);
    lemma_texts_colon_free(id, title, listing, ignore);
    lemma_encoded_files(files);
    lemma_decode_inverts_encode(id, title, texts, files);
    lemma_parse_record_text(id, title, texts);
}

/// One more snapshot adds exactly one record to the log and, where its
/// identifier is new, exactly one entry to the metadata.
pub proof fn lemma_commit_adds_one(
    repo: RepoView,
    id: Seq<u8>,
    title: Seq<u8>,
    listing: Seq<TreeView>,
    ignore: Seq<u8>,
)
    requires
        unambiguous(id, title, listing, ignore),
    ensures
        lines(committed(repo, id, title, listing, ignore).log) == lines(repo.log).push(
            snapshot_text(id, title, listing, ignore),
        ),
        key_index(repo.metadata, id) is None ==> committed(
            repo,
            id,
            title,
            listing,
            ignore,
        ).metadata == repo.metadata.push((id, snapshot_meta(listing, ignore))),
{
    lemma_texts(id, title, listing, ignore);
    lemma_lines_appended(repo.log, snapshot_text(id, title, listing, ignore));
}

/// After a snapshot whose identifier no earlier record carries, going back
/// to it gives exactly the files that its scan captured, each with its
/// content.
pub proof fn lemma_restore_gives_snapshot(
    repo: RepoView,
    id: Seq<u8>,
    title: Seq<u8>,
    listing: Seq<TreeView>,
    ignore: Seq<u8>,
)
    requires
        unambiguous(id, title, listing, ignore),
        forall|j: int| 0 <= j < lines(repo.log).len() ==> !has_id(#[trigger] lines(repo.log)[j], id),
    ensures
        restored(committed(repo, id, title, listing, ignore).log, id) == Ok::<
            Seq<(Seq<u8>, Seq<u8>)>,
            Error,
        >(captured(listing, ignore)),
{
    let record = snapshot_text(id, title, listing, ignore);
    let log = committed(repo, id, title, listing, ignore).log;
    lemma_commit_adds_one(repo, id, title, listing, ignore);
    lemma_unambiguous_separable(id, title, listing, ignore);
    lemma_snapshot_round_trip(id, title, listing, ignore);
    let all = lines(log);
    let n = lines(repo.log).len() as int;
    assert(all[n] == record);
    assert forall|j: int| 0 <= j < n implies !has_id(#[trigger] all[j], id) by {
        assert(all[j] == lines(repo.log)[j]);
    }
    lemma_line_index(all, id);
    assert(line_index(all, id) == Some(n));
}

/// After the first snapshot, going back to it gives exactly the files
/// that its scan captured, each with its content.
pub proof fn lemma_restore_gives_first(id: Seq<u8>, listing: Seq<TreeView>, ignore: Seq<u8>)
    requires
        unambiguous(id, init_title(), listing, ignore),
    ensures
        restored(initial(id, listing, ignore).log, id) == Ok::<Seq<(Seq<u8>, Seq<u8>)>, Error>(
            captured(listing, ignore),
        ),
{
    let record = snapshot_text(id, init_title(), listing, ignore);
    lemma_texts(id, init_title(), listing, ignore);
    lemma_one_line(record);
    lemma_unambiguous_separable(id, init_title(), listing, ignore);
    lemma_snapshot_round_trip(id, init_title(), listing, ignore);
    let all = lines(record);
    assert(all[0] == record);
    lemma_line_index(all, id);
    assert(line_index(all, id) == Some(0int));
}

/// A snapshot to take: its identifier, its title, the listing and the
/// ignore specification.
pub struct CommitView {
    pub id: Seq<u8>,
    pub title: Seq<u8>,
    pub listing: Seq<TreeView>,
    pub ignore: Seq<u8>,
}

/// The repository after the given snapshots were taken in turn.
pub open spec fn after_commits(start: RepoView, commits: Seq<CommitView>) -> RepoView
    decreases commits.len(),
{
    if commits.len() == 0 {
        start
    } else {
        let c = commits.last();
        committed(after_commits(start, commits.drop_last()), c.id, c.title, c.listing, c.ignore)
    }
}

/// After the first snapshot and `n` more, the log holds exactly `n + 1`
/// records and the metadata exactly `n + 1` entries, each under the
/// identifier of its snapshot, where the identifiers differ from one
/// another and no snapshot is ambiguous.
pub proof fn lemma_history_grows(first: CommitView, commits: Seq<CommitView>)
    requires
        unambiguous(first.id, init_title(), first.listing, first.ignore),
        forall|i: int|
            0 <= i < commits.len() ==> unambiguous(
                (#[trigger] commits[i]).id,
                commits[i].title,
                commits[i].listing,
                commits[i].ignore,
            ),
        forall|i: int| 0 <= i < commits.len() ==> (#[trigger] commits[i]).id != first.id,
        forall|i: int, j: int|
            0 <= i < j < commits.len() ==> (#[trigger] commits[i]).id != (#[trigger] commits[j]).id,
    ensures
        ({
            let repo = after_commits(initial(first.id, first.listing, first.ignore), commits);
            &&& lines(repo.log).len() == commits.len() + 1
            &&& repo.metadata.len() == commits.len() + 1
            &&& distinct_keys(repo.metadata)
            &&& repo.metadata[0].0 == first.id
            &&& forall|i: int|
                0 <= i < commits.len() ==> (#[trigger] repo.metadata[i + 1]).0 == commits[i].id
        }),
    decreases commits.len(),
{
    let start = initial(first.id, first.listing, first.ignore);
    if commits.len() == 0 {
        lemma_texts(first.id, init_title(), first.listing, first.ignore);
        lemma_one_line(start.log);
    } else {
        let before = commits.drop_last();
        let c = commits.last();
        assert forall|i: int| 0 <= i < before.len() implies unambiguous(
            (#[trigger] before[i]).id,
            before[i].title,
            before[i].listing,
            before[i].ignore,
        ) && before[i].id != first.id by {
            assert(before[i] == commits[i]);
        }
        assert forall|i: int, j: int| 0 <= i < j < before.len() implies (#[trigger] before[i]).id
            != (#[trigger] before[j]).id by {
            assert(before[i] == commits[i]);
            assert(before[j] == commits[j]);
        }
        lemma_history_grows(first, before);
        let repo = after_commits(start, before);
        let next = committed(repo, c.id, c.title, c.listing, c.ignore);
        assert(after_commits(start, commits) == next);
        assert forall|j: int| 0 <= j < repo.metadata.len() implies (#[trigger] repo.metadata[j]).0
            != c.id by {
            if j > 0 {
                assert(repo.metadata[(j - 1) + 1].0 == before[j - 1].id);
                assert(before[j - 1] == commits[j - 1]);
            }
        }
        lemma_key_index(repo.metadata, c.id);
        lemma_commit_adds_one(repo, c.id, c.title, c.listing, c.ignore);
        lemma_put(repo.metadata, c.id, snapshot_meta(c.listing, c.ignore));
        assert forall|i: int| 0 <= i < commits.len() implies (#[trigger] next.metadata[i + 1]).0
            == commits[i].id by {
            if i < before.len() {
                assert(next.metadata[i + 1] == repo.metadata[i + 1]);
                assert(before[i] == commits[i]);
            }
        }
    }
}

} // verus!
