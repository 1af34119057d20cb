//! A working tree as it was listed, and what a scan captures of it.
use vstd::prelude::*;
use crate::codec::{encode_payload, entries_view, payload_text, FileEntry};
use crate::encoding::{all_encode_well, encode_content, encoded_files, file_encodes_well};
use crate::ignore::{ignored, is_ignored};
use crate::meta::{children_view, put, put_entry, well_formed};
use crate::meta::{lemma_dir_view, lemma_put, MetaChildren, MetaView, MetadataEntry, MetadataNode};

verus! {

/// An entry of a directory listing: a file with its content and the time
/// of its last modification, or a directory with its own entries.
#[derive(Debug, PartialEq, Eq)]
pub enum TreeEntry {
    File { path: Vec<u8>, content: Vec<u8>, modified: Vec<u8> },
    Dir { path: Vec<u8>, entries: Vec<TreeEntry> },
}

/// What an entry of a listing holds.
pub enum TreeView {
    File { path: Seq<u8>, content: Seq<u8>, modified: Seq<u8> },
    Dir { path: Seq<u8>, entries: Seq<TreeView> },
}

/// What the listing under `entry` holds.
pub open spec fn entry_view(entry: TreeEntry) -> TreeView
    decreases entry,
{
    match entry {
        TreeEntry::File { path, content, modified } => TreeView::File {
            path: path@,
            content: content@,
            modified: modified@,
        },
        TreeEntry::Dir { path, entries } => TreeView::Dir {
            path: path@,
            entries: Seq::new(
                entries@.len(),
                |i: int|
                    if 0 <= i < entries@.len() {
                        entry_view(entries@[i])
                    } else {
                        TreeView::Dir { path: Seq::empty(), entries: Seq::empty() }
                    },
            ),
        },
    }
}

impl View for TreeEntry {
    type V = TreeView;

    open spec fn view(&self) -> TreeView {
        entry_view(*self)
    }
}

/// The entries of a listing, each as its view.
pub open spec fn listing_view(entries: Seq<TreeEntry>) -> Seq<TreeView> {
    Seq::new(entries.len(), |i: int| entries[i]@)
}

/// The view of a directory holds the views of its entries.
pub proof fn lemma_listing_view(entry: TreeEntry)
    requires
        entry is Dir,
    ensures
        entry@ == (TreeView::Dir {
            path: entry->Dir_path@,
            entries: listing_view(entry->entries@),
        }),
{
    let entries = entry->entries@;
    let seen = entry@->entries;
    assert(seen.len() == entries.len());
    assert forall|i: int| 0 <= i < entries.len() implies seen[i] == listing_view(entries)[i] by {
        assert(seen[i] == entries[i]@);
    }
    assert(seen =~= listing_view(entries));
}

/// The path of an entry.
pub open spec fn path_of(entry: TreeView) -> Seq<u8> {
    match entry {
        TreeView::File { path, .. } => path,
        TreeView::Dir { path, .. } => path,
    }
}

/// The metadata of an entry that is not ignored: for a file its
/// modification time, for a directory the metadata of its entries.
pub open spec fn meta_of(entry: TreeView, ignore: Seq<u8>) -> MetaView
    decreases entry,
{
    match entry {
        TreeView::File { modified, .. } => MetaView::File { modified },
        TreeView::Dir { entries, .. } => MetaView::Dir { children: meta_children(entries, ignore) },
    }
}

/// The metadata of the first `k` entries of a listing: each entry that is
/// not ignored is put at its path, in the place of an earlier entry with
/// the same path where there is one.
pub open spec fn meta_upto(entries: Seq<TreeView>, ignore: Seq<u8>, k: int) -> MetaChildren
    decreases entries, k,
{
    if k <= 0 || k > entries.len() {
        Seq::empty()
    } else if ignored(path_of(entries[k - 1]), ignore) {
        meta_upto(entries, ignore, k - 1)
    } else {
        put(
            meta_upto(entries, ignore, k - 1),
            path_of(entries[k - 1]),
            meta_of(entries[k - 1], ignore),
        )
    }
}

/// The metadata of a listing.
pub open spec fn meta_children(entries: Seq<TreeView>, ignore: Seq<u8>) -> MetaChildren
    decreases entries, entries.len() + 1,
{
    meta_upto(entries, ignore, entries.len() as int)
}

/// Builds the metadata of a listing: the children of its directory node.
pub fn scan_children(entries: &Vec<TreeEntry>, ignore: &[u8]) -> (children: Vec<MetadataEntry>)
    ensures
        children_view(children@) == meta_children(listing_view(entries@), ignore@),
    decreases entries,
{
    let ghost listing = listing_view(entries@);
    let mut children: Vec<MetadataEntry> = Vec::new();
    let mut k: usize = 0;
    assert(children_view(children@) =~= meta_upto(listing, ignore@, 0));
    while k < entries.len()
        invariant
            k <= entries.len(),
            listing == listing_view(entries@),
            children_view(children@) == meta_upto(listing, ignore@, k as int),
        decreases entries.len() - k,
    {
        assert(listing[k as int] == entries@[k as int]@);
        match &entries[k] {
            TreeEntry::File { path, content, modified } => {
                assert(path_of(listing[k as int]) == path@);
                assert(meta_of(listing[k as int], ignore@) == (MetaView::File {
                    modified: modified@,
                }));
                if !is_ignored(path.as_slice(), ignore) {
                    let node = MetadataNode::File { modified: modified.clone() };
                    assert(node@ == (MetaView::File { modified: modified@ }));
                    put_entry(&mut children, path.clone(), node);
                }
                assert(children_view(children@) == meta_upto(listing, ignore@, k + 1));
            },
            TreeEntry::Dir { path, entries: below } => {
                proof {
                    lemma_listing_view(entries@[k as int]);
                }
                if !is_ignored(path.as_slice(), ignore) {
                    proof {
                        assert(decreases_to!(entries => entries@));
                        assert(decreases_to!(entries@ => entries@[k as int]));
                        assert(decreases_to!(entries@[k as int] => entries@[k as int]->entries));
                    }
                    let sub = scan_children(below, ignore);
                    let node = MetadataNode::Dir { children: sub };
                    proof {
                        lemma_dir_view(node);
                    }
                    put_entry(&mut children, path.clone(), node);
                }
                assert(children_view(children@) == meta_upto(listing, ignore@, k + 1));
            },
        }
        k += 1;
    }
    children
}

/// Scans a listing for its metadata alone: the tree of the modification
/// times of the files that are not ignored.
pub fn scan_metadata(entries: &Vec<TreeEntry>, ignore: &[u8]) -> (tree: MetadataNode)
    ensures
        tree@ == (MetaView::Dir { children: meta_children(listing_view(entries@), ignore@) }),
        well_formed(tree@),
        avoids(tree@, ignore@),
{
    let children = scan_children(entries, ignore);
    let tree = MetadataNode::Dir { children };
    proof {
        lemma_dir_view(tree);
        lemma_meta_children(listing_view(entries@), ignore@);
    }
    tree
}

/// The files that a scan captures of an entry: none where the entry is
/// ignored; else the file with its content, or what is captured of the
/// entries of the directory.
pub open spec fn captured_of(entry: TreeView, ignore: Seq<u8>) -> Seq<(Seq<u8>, Seq<u8>)>
    decreases entry,
{
    if ignored(path_of(entry), ignore) {
        Seq::empty()
    } else {
        match entry {
            TreeView::File { path, content, .. } => seq![(path, content)],
            TreeView::Dir { entries, .. } => captured(entries, ignore),
        }
    }
}

/// The files captured of the first `k` entries of a listing, in order.
pub open spec fn captured_upto(entries: Seq<TreeView>, ignore: Seq<u8>, k: int) -> Seq<
    (Seq<u8>, Seq<u8>),
>
    decreases entries, k,
{
    if k <= 0 || k > entries.len() {
        Seq::empty()
    } else {
        captured_upto(entries, ignore, k - 1) + captured_of(entries[k - 1], ignore)
    }
}

/// The files that a scan captures of a listing, each with its path and its
/// content, in the order of the listing.
pub open spec fn captured(entries: Seq<TreeView>, ignore: Seq<u8>) -> Seq<(Seq<u8>, Seq<u8>)>
    decreases entries, entries.len() + 1,
{
    captured_upto(entries, ignore, entries.len() as int)
}

/// Adds to `texts` the files captured of a listing, each with the base64
/// text of its content.
pub fn capture(entries: &Vec<TreeEntry>, ignore: &[u8], texts: &mut Vec<FileEntry>)
    ensures
        entries_view(final(texts)@) == entries_view(old(texts)@) + encoded_files(
            captured(listing_view(entries@), ignore@),
        ),
        all_encode_well(captured(listing_view(entries@), ignore@)),
    decreases entries,
{
    let ghost listing = listing_view(entries@);
    let ghost before = entries_view(texts@);
    let mut k: usize = 0;
    assert(entries_view(texts@) =~= before + encoded_files(captured_upto(listing, ignore@, 0)));
    while k < entries.len()
        invariant
            k <= entries.len(),
            listing == listing_view(entries@),
            entries_view(texts@) == before + encoded_files(captured_upto(listing, ignore@, k as int)),
            all_encode_well(captured_upto(listing, ignore@, k as int)),
        decreases entries.len() - k,
    {
        let ghost sofar = captured_upto(listing, ignore@, k as int);
        let ghost step = captured_of(listing[k as int], ignore@);
        assert(listing[k as int] == entries@[k as int]@);
        assert(captured_upto(listing, ignore@, k + 1) == sofar + step);
        match &entries[k] {
            TreeEntry::File { path, content, modified } => {
                assert(path_of(listing[k as int]) == path@);
                if !is_ignored(path.as_slice(), ignore) {
                    let data = encode_content(content.as_slice());
                    let ghost held = entries_view(texts@);
                    let ghost text = (path@, data@);
                    texts.push(FileEntry { path: path.clone(), data });
                    assert(step =~= seq![(path@, content@)]);
                    assert(file_encodes_well(step[0]));
                    assert(entries_view(texts@) =~= held.push(text));
                    assert(encoded_files(sofar + step) =~= encoded_files(sofar).push(text));
                    assert(entries_view(texts@) =~= before + encoded_files(sofar + step));
                } else {
                    assert(sofar + step =~= sofar);
                }
            },
            TreeEntry::Dir { path, entries: below } => {
                proof {
                    lemma_listing_view(entries@[k as int]);
                }
                if !is_ignored(path.as_slice(), ignore) {
                    proof {
                        assert(decreases_to!(entries => entries@));
                        assert(decreases_to!(entries@ => entries@[k as int]));
                        assert(decreases_to!(entries@[k as int] => entries@[k as int]->entries));
                    }
                    let ghost held = entries_view(texts@);
                    capture(below, ignore, texts);
                    assert(step == captured(listing_view(below@), ignore@));
                    assert(encoded_files(sofar + step) =~= encoded_files(sofar) + encoded_files(
                        step,
                    ));
                    assert(entries_view(texts@) =~= before + encoded_files(sofar + step));
                } else {
                    assert(sofar + step =~= sofar);
                }
            },
        }
        assert forall|j: int| 0 <= j < (sofar + step).len() implies file_encodes_well(
            #[trigger] (sofar + step)[j],
        ) by {
            if j < sofar.len() {
                assert(file_encodes_well(sofar[j]));
            } else {
                assert(file_encodes_well(step[j - sofar.len()]));
            }
        }
        k += 1;
    }
}

/// What a scan gives: the payload of the captured files and the tree of
/// their metadata.
#[derive(Debug, PartialEq, Eq)]
pub struct ScanResult {
    pub payload: Vec<u8>,
    pub metadata: MetadataNode,
}

/// Scans a listing. The payload holds each file that is not ignored, with
/// its path and the base64 text of its content, in the order of the
/// listing, directories in place; an ignored directory is left out whole.
/// The metadata tree holds the modification time of each such file, laid
/// out as the directories are.
pub fn scan(entries: &Vec<TreeEntry>, ignore: &[u8]) -> (r: ScanResult)
    ensures
        r.payload@ == payload_text(encoded_files(captured(listing_view(entries@), ignore@))),
        all_encode_well(captured(listing_view(entries@), ignore@)),
        r.metadata@ == (MetaView::Dir {
            children: meta_children(listing_view(entries@), ignore@),
        }),
        files_avoid(captured(listing_view(entries@), ignore@), ignore@),
        well_formed(r.metadata@),
        avoids(r.metadata@, ignore@),
{
    proof {
        lemma_captured_avoids(listing_view(entries@), ignore@);
    }
    let mut texts: Vec<FileEntry> = Vec::new();
    capture(entries, ignore, &mut texts);
    assert(entries_view(texts@) =~= encoded_files(captured(listing_view(entries@), ignore@)));
    let payload = encode_payload(&texts);
    let metadata = scan_metadata(entries, ignore);
    ScanResult { payload, metadata }
}

/// No path of the tree, at any depth, is ignored.
pub open spec fn avoids(node: MetaView, ignore: Seq<u8>) -> bool
    decreases node,
{
    match node {
        MetaView::File { .. } => true,
        MetaView::Dir { children } => forall|i: int|
            0 <= i < children.len() ==> !ignored((#[trigger] children[i]).0, ignore) && avoids(
                children[i].1,
                ignore,
            ),
    }
}

/// No path of the files is ignored.
pub open spec fn files_avoid(files: Seq<(Seq<u8>, Seq<u8>)>, ignore: Seq<u8>) -> bool {
    forall|j: int| 0 <= j < files.len() ==> !ignored((#[trigger] files[j]).0, ignore)
}

proof fn lemma_captured_upto_avoids(entries: Seq<TreeView>, ignore: Seq<u8>, k: int)
    ensures
        files_avoid(captured_upto(entries, ignore, k), ignore),
    decreases entries, k,
{
    if 0 < k <= entries.len() {
        lemma_captured_upto_avoids(entries, ignore, k - 1);
        let entry = entries[k - 1];
        let sofar = captured_upto(entries, ignore, k - 1);
        let step = captured_of(entry, ignore);
        if !ignored(path_of(entry), ignore) {
            match entry {
                TreeView::File { .. } => {},
                TreeView::Dir { entries: below, .. } => {
                    lemma_captured_avoids(below, ignore);
                },
            }
        }
        assert(files_avoid(step, ignore));
        assert forall|j: int| 0 <= j < (sofar + step).len() implies !ignored(
            (#[trigger] (sofar + step)[j]).0,
            ignore,
        ) by {
            if j < sofar.len() {
                assert(!ignored(sofar[j].0, ignore));
            } else {
                assert(!ignored(step[j - sofar.len()].0, ignore));
            }
        }
    }
}

/// A path that the ignore specification holds is the path of no captured
/// file.
pub proof fn lemma_captured_avoids(entries: Seq<TreeView>, ignore: Seq<u8>)
    ensures
        files_avoid(captured(entries, ignore), ignore),
    decreases entries, entries.len() + 1,
{
    lemma_captured_upto_avoids(entries, ignore, entries.len() as int);
}

proof fn lemma_meta_upto(entries: Seq<TreeView>, ignore: Seq<u8>, k: int)
    ensures
        well_formed(MetaView::Dir { children: meta_upto(entries, ignore, k) }),
        avoids(MetaView::Dir { children: meta_upto(entries, ignore, k) }, ignore),
    decreases entries, k,
{
    if 0 < k <= entries.len() {
        lemma_meta_upto(entries, ignore, k - 1);
        let entry = entries[k - 1];
        let sofar = meta_upto(entries, ignore, k - 1);
        if !ignored(path_of(entry), ignore) {
            let node = meta_of(entry, ignore);
            match entry {
                TreeView::File { .. } => {},
                TreeView::Dir { entries: below, .. } => {
                    lemma_meta_children(below, ignore);
                },
            }
            assert(well_formed(node) && avoids(node, ignore));
            lemma_put(sofar, path_of(entry), node);
            let now = put(sofar, path_of(entry), node);
            assert forall|i: int| 0 <= i < now.len() implies well_formed((#[trigger] now[i]).1)
                && !ignored(now[i].0, ignore) && avoids(now[i].1, ignore) by {
                if now[i] != (path_of(entry), node) {
                    assert(now[i] == sofar[i]);
                }
            }
        }
    }
}

/// The metadata of a listing holds no path twice in any directory, and no
/// path that the ignore specification holds.
pub proof fn lemma_meta_children(entries: Seq<TreeView>, ignore: Seq<u8>)
    ensures
        well_formed(MetaView::Dir { children: meta_children(entries, ignore) }),
        avoids(MetaView::Dir { children: meta_children(entries, ignore) }, ignore),
    decreases entries, entries.len() + 1,
{
    lemma_meta_upto(entries, ignore, entries.len() as int);
}

} // verus!
