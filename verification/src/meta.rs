//! The metadata tree of a snapshot: the modification time of each file,
//! laid out as the directories are.
//!
//! The tree keeps every path and time as the bytes they are, so that no
//! two paths fall together and every contract holds of every path. The
//! stored document, whose keys are text, is made from the tree and read
//! back into it where the metadata is stored.
use vstd::prelude::*;
use crate::bytes::same;

verus! {

/// A file with its modification time, or a directory with its children.
#[derive(Debug, PartialEq, Eq)]
pub enum MetadataNode {
    File { modified: Vec<u8> },
    Dir { children: Vec<MetadataEntry> },
}

/// A child of a directory: its path and what stands there.
#[derive(Debug, PartialEq, Eq)]
pub struct MetadataEntry {
    pub path: Vec<u8>,
    pub node: MetadataNode,
}

/// What a metadata tree holds.
pub enum MetaView {
    File { modified: Seq<u8> },
    Dir { children: Seq<(Seq<u8>, MetaView)> },
}

/// What the tree under `node` holds.
pub open spec fn tree_view(node: MetadataNode) -> MetaView
    decreases node,
{
    match node {
        MetadataNode::File { modified } => MetaView::File { modified: modified@ },
        MetadataNode::Dir { children } => MetaView::Dir {
            children: Seq::new(
                children@.len(),
                |i: int|
                    if 0 <= i < children@.len() {
                        (children@[i].path@, tree_view(children@[i].node))
                    } else {
                        (Seq::empty(), MetaView::File { modified: Seq::empty() })
                    },
            ),
        },
    }
}

impl View for MetadataNode {
    type V = MetaView;

    open spec fn view(&self) -> MetaView {
        tree_view(*self)
    }
}

impl View for MetadataEntry {
    type V = (Seq<u8>, MetaView);

    open spec fn view(&self) -> (Seq<u8>, MetaView) {
        (self.path@, self.node@)
    }
}

/// The children of a directory, in order: each path with what stands there.
pub type MetaChildren = Seq<(Seq<u8>, MetaView)>;

/// The children of a list, each as its path and its view.
pub open spec fn children_view(entries: Seq<MetadataEntry>) -> MetaChildren {
    Seq::new(entries.len(), |i: int| entries[i]@)
}

/// The paths of a list.
pub open spec fn paths_view(paths: Seq<Vec<u8>>) -> Seq<Seq<u8>> {
    Seq::new(paths.len(), |i: int| paths[i]@)
}

/// The view of a directory holds the views of its children.
pub proof fn lemma_dir_view(node: MetadataNode)
    requires
        node is Dir,
    ensures
        node@ == (MetaView::Dir { children: children_view(node->children@) }),
{
    let entries = node->children@;
    let seen = node@->children;
    assert(seen.len() == entries.len());
    assert forall|i: int| 0 <= i < entries.len() implies seen[i] == children_view(entries)[i] by {
        assert(seen[i] == (entries[i].path@, entries[i].node@));
    }
    assert(seen =~= children_view(entries));
}

/// The first index among the children that carries `key`.
pub open spec fn key_index(children: MetaChildren, key: Seq<u8>) -> Option<int>
    decreases children.len(),
{
    if children.len() == 0 {
        None
    } else if key_index(children.drop_last(), key) is Some {
        key_index(children.drop_last(), key)
    } else if children.last().0 == key {
        Some(children.len() - 1)
    } else {
        None
    }
}

/// What stands at `key` among the children.
pub open spec fn lookup(children: MetaChildren, key: Seq<u8>) -> Option<MetaView> {
    match key_index(children, key) {
        Some(i) => Some(children[i].1),
        None => None,
    }
}

/// The children with `node` at `key`: in the place of the child that
/// carried `key`, or at the end where none did.
pub open spec fn put(children: MetaChildren, key: Seq<u8>, node: MetaView) -> MetaChildren {
    match key_index(children, key) {
        Some(i) => children.update(i, (key, node)),
        None => children.push((key, node)),
    }
}

/// No two children carry the same path.
pub open spec fn distinct_keys(children: MetaChildren) -> bool {
    forall|i: int, j: int|
        0 <= i < j < children.len() ==> (#[trigger] children[i]).0 != (#[trigger] children[j]).0
}

/// In every directory of the tree, no two children carry the same path.
pub open spec fn well_formed(node: MetaView) -> bool
    decreases node,
{
    match node {
        MetaView::File { .. } => true,
        MetaView::Dir { children } => {
            &&& distinct_keys(children)
            &&& forall|i: int|
                0 <= i < children.len() ==> well_formed((#[trigger] children[i]).1)
        },
    }
}

/// `key_index` gives the first child that carries the key, and none only
/// where no child does.
pub proof fn lemma_key_index(children: MetaChildren, key: Seq<u8>)
    ensures
        match key_index(children, key) {
            Some(i) => {
                &&& 0 <= i < children.len()
                &&& children[i].0 == key
                &&& forall|j: int| 0 <= j < i ==> (#[trigger] children[j]).0 != key
            },
            None => forall|j: int| 0 <= j < children.len() ==> (#[trigger] children[j]).0 != key,
        },
    decreases children.len(),
{
    if children.len() != 0 {
        let front = children.drop_last();
        lemma_key_index(front, key);
        assert forall|j: int| 0 <= j < front.len() implies front[j] == children[j] by {}
        match key_index(front, key) {
            Some(i) => {
                assert forall|j: int| 0 <= j < i implies (#[trigger] children[j]).0 != key by {
                    assert(front[j] == children[j]);
                }
            },
            None => {
                assert forall|j: int| 0 <= j < children.len() - 1 implies (
                #[trigger] children[j]).0 != key by {
                    assert(front[j] == children[j]);
                }
            },
        }
    }
}

/// A child that carries the key, with none before it that does, is the one
/// that `key_index` gives.
pub proof fn lemma_key_index_is(children: MetaChildren, key: Seq<u8>, i: int)
    requires
        0 <= i < children.len(),
        children[i].0 == key,
        forall|j: int| 0 <= j < i ==> (#[trigger] children[j]).0 != key,
    ensures
        key_index(children, key) == Some(i),
{
    lemma_key_index(children, key);
}

/// Putting a node at a key keeps the other children as they were, keeps
/// the paths distinct, and makes the node what stands at the key.
pub proof fn lemma_put(children: MetaChildren, key: Seq<u8>, node: MetaView)
    ensures
        put(children, key, node).len() >= children.len(),
        forall|j: int|
            0 <= j < put(children, key, node).len() ==> {
                ||| (#[trigger] put(children, key, node)[j]) == (key, node)
                ||| (j < children.len() && put(children, key, node)[j] == children[j])
            },
        distinct_keys(children) ==> distinct_keys(put(children, key, node)),
        lookup(put(children, key, node), key) == Some(node),
{
    let r = put(children, key, node);
    lemma_key_index(children, key);
    match key_index(children, key) {
        Some(i) => {
            assert forall|j: int| 0 <= j < r.len() implies (#[trigger] r[j]).0 == children[j].0 by {}
            if distinct_keys(children) {
                assert forall|a: int, b: int| 0 <= a < b < r.len() implies (#[trigger] r[a]).0 != (
                #[trigger] r[b]).0 by {
                    assert(children[a].0 != children[b].0);
                }
            }
            assert forall|j: int| 0 <= j < i implies (#[trigger] r[j]).0 != key by {
                assert(children[j].0 != key);
            }
            lemma_key_index_is(r, key, i);
        },
        None => {
            if distinct_keys(children) {
                assert forall|a: int, b: int| 0 <= a < b < r.len() implies (#[trigger] r[a]).0 != (
                #[trigger] r[b]).0 by {
                    assert(r[a] == children[a]);
                    if b < children.len() {
                        assert(r[b] == children[b]);
                    }
                }
            }
            assert forall|j: int| 0 <= j < children.len() implies (#[trigger] r[j]).0 != key by {
                assert(r[j] == children[j]);
            }
            lemma_key_index_is(r, key, children.len() as int);
        },
    }
}

/// The paths of the files at and below a node: the path itself for a file,
/// and for a directory the files below each of its children, in order. An
/// empty directory holds none.
pub open spec fn files_below(path: Seq<u8>, node: MetaView) -> Seq<Seq<u8>>
    decreases node,
{
    match node {
        MetaView::File { .. } => seq![path],
        MetaView::Dir { children } => files_in(children),
    }
}

/// The paths of the files at and below the first `k` children.
pub open spec fn files_upto(children: MetaChildren, k: int) -> Seq<Seq<u8>>
    decreases children, k,
{
    if k <= 0 || k > children.len() {
        Seq::empty()
    } else {
        files_upto(children, k - 1) + files_below(children[k - 1].0, children[k - 1].1)
    }
}

/// The paths of the files at and below the children of a directory.
pub open spec fn files_in(children: MetaChildren) -> Seq<Seq<u8>>
    decreases children, children.len() + 1,
{
    files_upto(children, children.len() as int)
}

/// What is reported for one child of the reference, given what stands at
/// its path in the current tree:
/// - for two directories, the changes between them;
/// - for two files, the path where their times differ;
/// - for a file against a directory, the path and then every file below
///   the directory;
/// - for a directory against a file, every file below the directory and
///   then the path;
/// - where the current tree holds nothing there, every file at and below
///   the child.
pub open spec fn node_changes(path: Seq<u8>, reference: MetaView, current: Option<MetaView>) -> Seq<
    Seq<u8>,
>
    decreases reference,
{
    match (reference, current) {
        (MetaView::Dir { children: a }, Some(MetaView::Dir { children: b })) => changed(a, b),
        (MetaView::File { modified: t }, Some(MetaView::File { modified: u })) => if t == u {
            Seq::empty()
        } else {
            seq![path]
        },
        (MetaView::File { .. }, Some(MetaView::Dir { children: b })) => seq![path] + files_in(b),
        (MetaView::Dir { children: a }, Some(MetaView::File { .. })) => files_in(a) + seq![path],
        (_, None) => files_below(path, reference),
    }
}

/// What is reported for the first `k` children of the reference.
pub open spec fn changed_upto(reference: MetaChildren, current: MetaChildren, k: int) -> Seq<
    Seq<u8>,
>
    decreases reference, k,
{
    if k <= 0 || k > reference.len() {
        Seq::empty()
    } else {
        changed_upto(reference, current, k - 1) + node_changes(
            reference[k - 1].0,
            reference[k - 1].1,
            lookup(current, reference[k - 1].0),
        )
    }
}

/// The files at and below those of the first `k` children of the current
/// tree whose path the reference does not hold.
pub open spec fn added_upto(reference: MetaChildren, current: MetaChildren, k: int) -> Seq<Seq<u8>>
    decreases k,
{
    if k <= 0 || k > current.len() {
        Seq::empty()
    } else if key_index(reference, current[k - 1].0) is None {
        added_upto(reference, current, k - 1) + files_below(current[k - 1].0, current[k - 1].1)
    } else {
        added_upto(reference, current, k - 1)
    }
}

/// The paths that changed between two directories: what is reported for
/// each child of the reference, in order, and then every file at and below
/// each child that only the current directory holds.
pub open spec fn changed(reference: MetaChildren, current: MetaChildren) -> Seq<Seq<u8>>
    decreases reference, reference.len() + 1,
{
    changed_upto(reference, current, reference.len() as int) + added_upto(
        reference,
        current,
        current.len() as int,
    )
}

/// The paths that changed between two trees. Two directories are compared
/// child by child; a root that is a file has no path to report.
pub open spec fn changed_paths(reference: MetaView, current: MetaView) -> Seq<Seq<u8>> {
    match (reference, current) {
        (MetaView::Dir { children: a }, MetaView::Dir { children: b }) => changed(a, b),
        _ => Seq::empty(),
    }
}

/// Finds the first child that carries `key`.
pub fn find_entry(children: &Vec<MetadataEntry>, key: &[u8]) -> (r: Option<usize>)
    ensures
        match r {
            Some(i) => key_index(children_view(children@), key@) == Some(i as int) && i
                < children.len(),
            None => key_index(children_view(children@), key@) is None,
        },
{
    let ghost view = children_view(children@);
    let mut k: usize = 0;
    while k < children.len()
        invariant
            k <= children.len(),
            view == children_view(children@),
            forall|j: int| 0 <= j < k ==> (#[trigger] view[j]).0 != key@,
        decreases children.len() - k,
    {
        if same(children[k].path.as_slice(), key) {
            proof {
                lemma_key_index_is(view, key@, k as int);
            }
            return Some(k);
        }
        k += 1;
    }
    proof {
        lemma_key_index(view, key@);
    }
    None
}

/// Puts `node` at `path` among the children: in the place of the child
/// that carried the path, or at the end where none did.
pub fn put_entry(children: &mut Vec<MetadataEntry>, path: Vec<u8>, node: MetadataNode)
    ensures
        children_view(final(children)@) == put(children_view(old(children)@), path@, node@),
{
    let ghost before = children_view(children@);
    match find_entry(children, path.as_slice()) {
        Some(i) => {
            children.set(i, MetadataEntry { path, node });
            assert(children_view(children@) =~= before.update(i as int, (path@, node@)));
        },
        None => {
            children.push(MetadataEntry { path, node });
            assert(children_view(children@) =~= before.push((path@, node@)));
        },
    }
}

/// Adds `path` to the reported paths.
fn report(out: &mut Vec<Vec<u8>>, path: &Vec<u8>)
    ensures
        paths_view(final(out)@) == paths_view(old(out)@).push(path@),
{
    let copy = path.clone();
    out.push(copy);
    assert(paths_view(out@) =~= paths_view(old(out)@).push(path@));
}

/// Adds to `out` the paths of the files at and below the children of a
/// directory.
pub fn report_files(children: &Vec<MetadataEntry>, out: &mut Vec<Vec<u8>>)
    ensures
        paths_view(final(out)@) == paths_view(old(out)@) + files_in(children_view(children@)),
    decreases children,
{
    let ghost before = paths_view(out@);
    let ghost view = children_view(children@);
    let mut k: usize = 0;
    assert(paths_view(out@) =~= before + files_upto(view, 0));
    while k < children.len()
        invariant
            k <= children.len(),
            view == children_view(children@),
            paths_view(out@) == before + files_upto(view, k as int),
        decreases children.len() - k,
    {
        let entry = &children[k];
        let ghost sofar = files_upto(view, k as int);
        let ghost step = files_below(view[k as int].0, view[k as int].1);
        assert(view[k as int] == (entry.path@, entry.node@));
        assert(files_upto(view, k + 1) == sofar + step);
        match &entry.node {
            MetadataNode::File { .. } => {
                report(out, &entry.path);
                assert(step =~= seq![entry.path@]);
            },
            MetadataNode::Dir { children: below } => {
                proof {
                    lemma_dir_view(entry.node);
                    assert(decreases_to!(children => children@));
                    assert(decreases_to!(children@ => children@[k as int]));
                    assert(decreases_to!(children@[k as int] => children@[k as int].node));
                    assert(decreases_to!(children@[k as int].node => children@[k as int].node->children));
                }
                report_files(below, out);
                assert(step == files_in(children_view(below@)));
            },
        }
        k += 1;
        assert(paths_view(out@) =~= before + (sofar + step));
    }
}

/// Adds to `out` the paths of the files at and below a node that stands at
/// `path`.
pub fn report_below(path: &Vec<u8>, node: &MetadataNode, out: &mut Vec<Vec<u8>>)
    ensures
        paths_view(final(out)@) == paths_view(old(out)@) + files_below(path@, node@),
{
    match node {
        MetadataNode::File { .. } => {
            report(out, path);
            assert(paths_view(out@) =~= paths_view(old(out)@) + seq![path@]);
        },
        MetadataNode::Dir { children } => {
            proof {
                lemma_dir_view(*node);
            }
            report_files(children, out);
        },
    }
}

/// Adds to `out` the paths that changed between two directories.
pub fn compare_children(
    reference: &Vec<MetadataEntry>,
    current: &Vec<MetadataEntry>,
    out: &mut Vec<Vec<u8>>,
)
    ensures
        paths_view(final(out)@) == paths_view(old(out)@) + changed(
            children_view(reference@),
            children_view(current@),
        ),
    decreases reference,
{
    let ghost before = paths_view(out@);
    let ghost rv = children_view(reference@);
    let ghost cv = children_view(current@);
    let mut k: usize = 0;
    assert(paths_view(out@) =~= before + changed_upto(rv, cv, 0));
    while k < reference.len()
        invariant
            k <= reference.len(),
            rv == children_view(reference@),
            cv == children_view(current@),
            paths_view(out@) == before + changed_upto(rv, cv, k as int),
        decreases reference.len() - k,
    {
        let entry = &reference[k];
        let ghost sofar = changed_upto(rv, cv, k as int);
        let ghost step = node_changes(rv[k as int].0, rv[k as int].1, lookup(cv, rv[k as int].0));
        proof {
            assert(rv[k as int] == (entry.path@, entry.node@));
            assert(changed_upto(rv, cv, k + 1) == sofar + step);
            lemma_key_index(cv, entry.path@);
        }
        match find_entry(current, entry.path.as_slice()) {
            None => {
                report_below(&entry.path, &entry.node, out);
            },
            Some(i) => {
                let other = &current[i];
                assert(cv[i as int] == (other.path@, other.node@));
                match &entry.node {
                    MetadataNode::Dir { children: a } => {
                        match &other.node {
                            MetadataNode::Dir { children: b } => {
                                proof {
                                    lemma_dir_view(entry.node);
                                    lemma_dir_view(other.node);
                                    assert(decreases_to!(reference => reference@));
                                    assert(decreases_to!(reference@ => reference@[k as int]));
                                    assert(decreases_to!(reference@[k as int] => reference@[k as int].node));
                                    assert(decreases_to!(reference@[k as int].node => reference@[k as int].node->children));
                                }
                                compare_children(a, b, out);
                                assert(step == changed(children_view(a@), children_view(b@)));
                            },
                            MetadataNode::File { .. } => {
                                proof {
                                    lemma_dir_view(entry.node);
                                }
                                let ghost held = paths_view(out@);
                                report_files(a, out);
                                report(out, &entry.path);
                                assert(step == files_in(children_view(a@)) + seq![entry.path@]);
                                assert(paths_view(out@) =~= held + step);
                            },
                        }
                    },
                    MetadataNode::File { modified: t } => {
                        match &other.node {
                            MetadataNode::File { modified: u } => {
                                if !same(t.as_slice(), u.as_slice()) {
                                    report(out, &entry.path);
                                    assert(step =~= seq![entry.path@]);
                                } else {
                                    assert(step =~= Seq::<Seq<u8>>::empty());
                                }
                            },
                            MetadataNode::Dir { children: b } => {
                                proof {
                                    lemma_dir_view(other.node);
                                }
                                let ghost held = paths_view(out@);
                                report(out, &entry.path);
                                report_files(b, out);
                                assert(step == seq![entry.path@] + files_in(children_view(b@)));
                                assert(paths_view(out@) =~= held + step);
                            },
                        }
                    },
                }
            },
        }
        k += 1;
        assert(paths_view(out@) =~= before + (sofar + step));
    }
    let ghost kept = changed_upto(rv, cv, rv.len() as int);
    let mut k: usize = 0;
    assert(paths_view(out@) =~= before + kept + added_upto(rv, cv, 0));
    while k < current.len()
        invariant
            k <= current.len(),
            rv == children_view(reference@),
            cv == children_view(current@),
            paths_view(out@) == before + kept + added_upto(rv, cv, k as int),
        decreases current.len() - k,
    {
        let entry = &current[k];
        assert(cv[k as int] == (entry.path@, entry.node@));
        let ghost sofar = added_upto(rv, cv, k as int);
        if find_entry(reference, entry.path.as_slice()).is_none() {
            report_below(&entry.path, &entry.node, out);
            assert(paths_view(out@) =~= before + kept + (sofar + files_below(
                entry.path@,
                entry.node@,
            )));
        }
        k += 1;
    }
    assert(paths_view(out@) =~= before + (kept + added_upto(rv, cv, cv.len() as int)));
}

/// The paths of the files that changed between the reference tree and the
/// current tree. Two directories are compared child by child, in the order
/// of the reference: a directory on both sides is compared in turn; a file
/// on both sides is reported where its modification times differ; where
/// one side holds a file and the other a directory, or nothing, every file
/// of either side is reported. After them come the files at and below the
/// children that only the current directory holds. A directory is never
/// reported by its own path, and an empty directory adds nothing. A root
/// that is a file has no path to report.
pub fn compare(reference: &MetadataNode, current: &MetadataNode) -> (r: Vec<Vec<u8>>)
    ensures
        paths_view(r@) == changed_paths(reference@, current@),
{
    let mut out: Vec<Vec<u8>> = Vec::new();
    assert(paths_view(out@) =~= Seq::<Seq<u8>>::empty());
    match reference {
        MetadataNode::Dir { children: a } => {
            match current {
                MetadataNode::Dir { children: b } => {
                    proof {
                        lemma_dir_view(*reference);
                        lemma_dir_view(*current);
                    }
                    compare_children(a, b, &mut out);
                    assert(paths_view(out@) =~= changed(children_view(a@), children_view(b@)));
                },
                MetadataNode::File { .. } => {},
            }
        },
        MetadataNode::File { .. } => {},
    }
    out
}

proof fn lemma_unchanged_upto(children: MetaChildren, k: int)
    requires
        well_formed(MetaView::Dir { children }),
        0 <= k <= children.len(),
    ensures
        changed_upto(children, children, k) == Seq::<Seq<u8>>::empty(),
    decreases children, k,
{
    if k > 0 {
        lemma_unchanged_upto(children, k - 1);
        let key = children[k - 1].0;
        let node = children[k - 1].1;
        assert forall|j: int| 0 <= j < k - 1 implies (#[trigger] children[j]).0 != key by {
            assert(children[j].0 != children[k - 1].0);
        }
        lemma_key_index_is(children, key, k - 1);
        assert(lookup(children, key) == Some(node));
        assert(well_formed(children[k - 1].1));
        match node {
            MetaView::Dir { children: below } => {
                lemma_unchanged(below);
            },
            MetaView::File { .. } => {},
        }
        assert(node_changes(key, node, Some(node)) == Seq::<Seq<u8>>::empty());
        assert(changed_upto(children, children, k) =~= Seq::<Seq<u8>>::empty());
    }
}

proof fn lemma_nothing_added(children: MetaChildren, k: int)
    requires
        0 <= k <= children.len(),
    ensures
        added_upto(children, children, k) == Seq::<Seq<u8>>::empty(),
    decreases k,
{
    if k > 0 {
        lemma_nothing_added(children, k - 1);
        lemma_key_index(children, children[k - 1].0);
    }
}

/// A directory in which no path stands twice, at any depth, has no change
/// against itself.
pub proof fn lemma_unchanged(children: MetaChildren)
    requires
        well_formed(MetaView::Dir { children }),
    ensures
        changed(children, children) == Seq::<Seq<u8>>::empty(),
    decreases children, children.len() + 1,
{
    lemma_unchanged_upto(children, children.len() as int);
    lemma_nothing_added(children, children.len() as int);
    assert(changed(children, children) =~= Seq::<Seq<u8>>::empty());
}

/// Comparing a tree with itself reports nothing, where no directory of the
/// tree holds a path twice.
pub proof fn lemma_compare_same(tree: MetaView)
    requires
        well_formed(tree),
    ensures
        changed_paths(tree, tree) == Seq::<Seq<u8>>::empty(),
{
    match tree {
        MetaView::Dir { children } => {
            lemma_unchanged(children);
        },
        MetaView::File { .. } => {},
    }
}

proof fn lemma_all_removed_upto(reference: MetaChildren, k: int)
    requires
        0 <= k <= reference.len(),
    ensures
        changed_upto(reference, Seq::empty(), k) == files_upto(reference, k),
    decreases k,
{
    if k > 0 {
        lemma_all_removed_upto(reference, k - 1);
        let nothing: MetaChildren = Seq::empty();
        let key = reference[k - 1].0;
        let node = reference[k - 1].1;
        assert(key_index(nothing, key) is None);
        assert(lookup(nothing, key) is None);
        assert(node_changes(key, node, None) == files_below(key, node));
    }
}

proof fn lemma_all_added_upto(current: MetaChildren, k: int)
    requires
        0 <= k <= current.len(),
    ensures
        added_upto(Seq::empty(), current, k) == files_upto(current, k),
    decreases k,
{
    if k > 0 {
        lemma_all_added_upto(current, k - 1);
        let nothing: MetaChildren = Seq::empty();
        assert(key_index(nothing, current[k - 1].0) is None);
    }
}

/// Against an empty directory, every file of the reference is reported,
/// each by its own path, and no directory is.
pub proof fn lemma_all_removed(reference: MetaChildren)
    ensures
        changed(reference, Seq::empty()) == files_in(reference),
{
    lemma_all_removed_upto(reference, reference.len() as int);
    assert(changed(reference, Seq::empty()) =~= files_in(reference));
}

/// Against an empty reference, every file of the current directory is
/// reported, each by its own path, and no directory is.
pub proof fn lemma_all_added(current: MetaChildren)
    ensures
        changed(Seq::empty(), current) == files_in(current),
{
    lemma_all_added_upto(current, current.len() as int);
    assert(changed(Seq::empty(), current) =~= files_in(current));
}

proof fn lemma_concat_contains(x: Seq<Seq<u8>>, y: Seq<Seq<u8>>, p: Seq<u8>)
    ensures
        (x + y).contains(p) <==> (x.contains(p) || y.contains(p)),
{
    let both = x + y;
    if both.contains(p) {
        let i = choose|i: int| 0 <= i < both.len() && both[i] == p;
        if i < x.len() {
            assert(x[i] == p);
        } else {
            assert(y[i - x.len()] == p);
        }
    }
    if x.contains(p) {
        let i = choose|i: int| 0 <= i < x.len() && x[i] == p;
        assert(both[i] == p);
    }
    if y.contains(p) {
        let i = choose|i: int| 0 <= i < y.len() && y[i] == p;
        assert(both[i + x.len()] == p);
    }
}

/// A file at or below a child is a file below the directory.
proof fn lemma_file_of_child(children: MetaChildren, i: int, k: int, p: Seq<u8>)
    requires
        0 <= i < k <= children.len(),
        files_below(children[i].0, children[i].1).contains(p),
    ensures
        files_upto(children, k).contains(p),
    decreases k,
{
    lemma_concat_contains(
        files_upto(children, k - 1),
        files_below(children[k - 1].0, children[k - 1].1),
        p,
    );
    if i < k - 1 {
        lemma_file_of_child(children, i, k - 1, p);
    }
}

/// The path is that of a file of one of the two directories.
pub open spec fn file_of_either(reference: MetaChildren, current: MetaChildren, p: Seq<u8>) -> bool {
    files_in(reference).contains(p) || files_in(current).contains(p)
}

proof fn lemma_node_changes_are_files(
    reference: MetaChildren,
    current: MetaChildren,
    k: int,
    p: Seq<u8>,
)
    requires
        0 <= k < reference.len(),
        node_changes(reference[k].0, reference[k].1, lookup(current, reference[k].0)).contains(p),
    ensures
        file_of_either(reference, current, p),
    decreases reference, k, 0int,
{
    let key = reference[k].0;
    let node = reference[k].1;
    let n = reference.len() as int;
    lemma_key_index(current, key);
    match key_index(current, key) {
        None => {
            lemma_file_of_child(reference, k, n, p);
        },
        Some(i) => {
            let other = current[i].1;
            let m = current.len() as int;
            assert(lookup(current, key) == Some(other));
            match (node, other) {
                (MetaView::Dir { children: a }, MetaView::Dir { children: b }) => {
                    lemma_changes_are_files(a, b);
                    assert(node_changes(key, node, Some(other)) == changed(a, b));
                    assert(changed(a, b).contains(p));
                    assert(file_of_either(a, b, p));
                    if files_in(a).contains(p) {
                        lemma_file_of_child(reference, k, n, p);
                    } else {
                        lemma_file_of_child(current, i, m, p);
                    }
                },
                (MetaView::File { .. }, MetaView::File { .. }) => {
                    assert(seq![key].contains(p));
                    lemma_file_of_child(reference, k, n, p);
                },
                (MetaView::File { .. }, MetaView::Dir { children: b }) => {
                    lemma_concat_contains(seq![key], files_in(b), p);
                    if seq![key].contains(p) {
                        lemma_file_of_child(reference, k, n, p);
                    } else {
                        lemma_file_of_child(current, i, m, p);
                    }
                },
                (MetaView::Dir { children: a }, MetaView::File { .. }) => {
                    lemma_concat_contains(files_in(a), seq![key], p);
                    if files_in(a).contains(p) {
                        lemma_file_of_child(reference, k, n, p);
                    } else {
                        assert(files_below(current[i].0, other) == seq![key]);
                        lemma_file_of_child(current, i, m, p);
                    }
                },
            }
        },
    }
}

proof fn lemma_changed_upto_are_files(
    reference: MetaChildren,
    current: MetaChildren,
    k: int,
    p: Seq<u8>,
)
    requires
        0 <= k <= reference.len(),
        changed_upto(reference, current, k).contains(p),
    ensures
        file_of_either(reference, current, p),
    decreases reference, k, 1int,
{
    if k > 0 {
        let step = node_changes(
            reference[k - 1].0,
            reference[k - 1].1,
            lookup(current, reference[k - 1].0),
        );
        lemma_concat_contains(changed_upto(reference, current, k - 1), step, p);
        if step.contains(p) {
            lemma_node_changes_are_files(reference, current, k - 1, p);
        } else {
            lemma_changed_upto_are_files(reference, current, k - 1, p);
        }
    }
}

proof fn lemma_added_upto_are_files(
    reference: MetaChildren,
    current: MetaChildren,
    k: int,
    p: Seq<u8>,
)
    requires
        0 <= k <= current.len(),
        added_upto(reference, current, k).contains(p),
    ensures
        files_in(current).contains(p),
    decreases k,
{
    if k > 0 {
        let step = files_below(current[k - 1].0, current[k - 1].1);
        if key_index(reference, current[k - 1].0) is None {
            lemma_concat_contains(added_upto(reference, current, k - 1), step, p);
            if step.contains(p) {
                lemma_file_of_child(current, k - 1, current.len() as int, p);
            } else {
                lemma_added_upto_are_files(reference, current, k - 1, p);
            }
        } else {
            lemma_added_upto_are_files(reference, current, k - 1, p);
        }
    }
}

/// Every path that is reported between two directories is the path of a
/// file of one of them: a directory is never reported by its own path.
pub proof fn lemma_changes_are_files(reference: MetaChildren, current: MetaChildren)
    ensures
        forall|p: Seq<u8>| #[trigger]
            changed(reference, current).contains(p) ==> file_of_either(reference, current, p),
    decreases reference, reference.len() + 1, 0int,
{
    let kept = changed_upto(reference, current, reference.len() as int);
    let added = added_upto(reference, current, current.len() as int);
    assert forall|p: Seq<u8>| #[trigger]
        changed(reference, current).contains(p) implies file_of_either(reference, current, p) by {
        lemma_concat_contains(kept, added, p);
        if kept.contains(p) {
            lemma_changed_upto_are_files(reference, current, reference.len() as int, p);
        } else {
            lemma_added_upto_are_files(reference, current, current.len() as int, p);
        }
    }
}

} // verus!
