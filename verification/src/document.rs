//! The stored documents: the metadata of all snapshots, and the ignore
//! specification. A document is an object whose members are texts and
//! objects; this module says which documents stand for which values.
use vstd::prelude::*;
use vstd::slice::slice_to_vec;
use crate::bytes::same;
use crate::error::Error;
use crate::meta::{children_view, lemma_dir_view, lemma_key_index, put};
use crate::meta::{put_entry, well_formed, MetaChildren, MetaView, MetadataEntry, MetadataNode};

verus! {

/// A value of a document: a text, an object with its members in order, or
/// any other value.
#[derive(Debug, PartialEq, Eq)]
pub enum DocValue {
    Text { text: Vec<u8> },
    Object { members: Vec<DocMember> },
    Other,
}

/// A member of an object: its key and its value.
#[derive(Debug, PartialEq, Eq)]
pub struct DocMember {
    pub key: Vec<u8>,
    pub value: DocValue,
}

/// What a value of a document holds.
pub enum DocView {
    Text { text: Seq<u8> },
    Object { members: Seq<(Seq<u8>, DocView)> },
    Other,
}

/// The members of an object, in order: each key with its value.
pub type DocMembers = Seq<(Seq<u8>, DocView)>;

/// What the value `doc` holds.
pub open spec fn doc_view(doc: DocValue) -> DocView
    decreases doc,
{
    match doc {
        DocValue::Text { text } => DocView::Text { text: text@ },
        DocValue::Object { members } => DocView::Object {
            members: Seq::new(
                members@.len(),
                |i: int|
                    if 0 <= i < members@.len() {
                        (members@[i].key@, doc_view(members@[i].value))
                    } else {
                        (Seq::empty(), DocView::Other)
                    },
            ),
        },
        DocValue::Other => DocView::Other,
    }
}

impl View for DocValue {
    type V = DocView;

    open spec fn view(&self) -> DocView {
        doc_view(*self)
    }
}

impl View for DocMember {
    type V = (Seq<u8>, DocView);

    open spec fn view(&self) -> (Seq<u8>, DocView) {
        (self.key@, self.value@)
    }
}

/// The members of a list, each as its key and its view.
pub open spec fn members_view(members: Seq<DocMember>) -> DocMembers {
    Seq::new(members.len(), |i: int| members[i]@)
}

/// The view of an object holds the views of its members.
pub proof fn lemma_object_view(doc: DocValue)
    requires
        doc is Object,
    ensures
        doc@ == (DocView::Object { members: members_view(doc->members@) }),
{
    let members = doc->members@;
    let seen = doc@->members;
    assert(seen.len() == members.len());
    assert forall|i: int| 0 <= i < members.len() implies seen[i] == members_view(members)[i] by {
        assert(seen[i] == (members[i].key@, members[i].value@));
    }
    assert(seen =~= members_view(members));
}

/// The key under which a file holds its modification time: `mdftime`.
pub open spec fn time_key() -> Seq<u8> {
    seq![109u8, 100u8, 102u8, 116u8, 105u8, 109u8, 101u8]
}

/// The key under which the ignore document holds the specification:
/// `ignore`.
pub open spec fn ignore_key() -> Seq<u8> {
    seq![105u8, 103u8, 110u8, 111u8, 114u8, 101u8]
}

/// The document of a metadata tree: for a file an object with its
/// modification time under `mdftime`, for a directory an object with the
/// document of each child under its path.
pub open spec fn node_doc(node: MetaView) -> DocView
    decreases node,
{
    match node {
        MetaView::File { modified } => DocView::Object {
            members: seq![(time_key(), DocView::Text { text: modified })],
        },
        MetaView::Dir { children } => DocView::Object {
            members: children_doc(children, children.len() as int),
        },
    }
}

/// The members that stand for the first `k` children.
pub open spec fn children_doc(children: MetaChildren, k: int) -> DocMembers
    decreases children, k,
{
    if k <= 0 || k > children.len() {
        Seq::empty()
    } else {
        children_doc(children, k - 1).push((children[k - 1].0, node_doc(children[k - 1].1)))
    }
}

/// The document of the metadata of all snapshots: an object with the
/// document of each tree under the identifier of its snapshot.
pub open spec fn store_doc(store: MetaChildren) -> DocView {
    DocView::Object { members: children_doc(store, store.len() as int) }
}

/// The members are those of a file: one text under `mdftime`.
pub open spec fn is_leaf(members: DocMembers) -> bool {
    &&& members.len() == 1
    &&& members[0].0 == time_key()
    &&& members[0].1 is Text
}

/// The metadata tree that a document stands for: a file for an object
/// with one text under `mdftime`, a directory for any other object whose
/// members all stand for trees; none for any other value.
pub open spec fn doc_node(doc: DocView) -> Option<MetaView>
    decreases doc,
{
    match doc {
        DocView::Object { members } => if is_leaf(members) {
            Some(MetaView::File { modified: members[0].1->text })
        } else {
            match doc_children(members, members.len() as int) {
                Some(children) => Some(MetaView::Dir { children }),
                None => None,
            }
        },
        _ => None,
    }
}

/// The children that the first `k` members stand for: each tree is put at
/// its key, in the place of an earlier member with the same key where
/// there is one. None where some member stands for no tree.
pub open spec fn doc_children(members: DocMembers, k: int) -> Option<MetaChildren>
    decreases members, k,
{
    if k <= 0 || k > members.len() {
        Some(Seq::empty())
    } else {
        match (doc_children(members, k - 1), doc_node(members[k - 1].1)) {
            (Some(children), Some(node)) => Some(put(children, members[k - 1].0, node)),
            _ => None,
        }
    }
}

/// The metadata of all snapshots that a document stands for.
pub open spec fn doc_store(doc: DocView) -> Option<MetaChildren> {
    match doc {
        DocView::Object { members } => doc_children(members, members.len() as int),
        _ => None,
    }
}

/// The document of an ignore specification: an object with the
/// specification under `ignore`.
pub open spec fn ignore_doc(specification: Seq<u8>) -> DocView {
    DocView::Object { members: seq![(ignore_key(), DocView::Text { text: specification })] }
}

/// The index of the first member with the given key.
pub open spec fn member_index(members: DocMembers, key: Seq<u8>) -> Option<int>
    decreases members.len(),
{
    if members.len() == 0 {
        None
    } else if member_index(members.drop_last(), key) is Some {
        member_index(members.drop_last(), key)
    } else if members.last().0 == key {
        Some(members.len() - 1)
    } else {
        None
    }
}

/// The ignore specification that a document holds: the text of its first
/// member under `ignore`; none where the document is no object, has no
/// such member, or holds no text there.
pub open spec fn doc_ignore(doc: DocView) -> Option<Seq<u8>> {
    match doc {
        DocView::Object { members } => match member_index(members, ignore_key()) {
            Some(i) => match members[i].1 {
                DocView::Text { text } => Some(text),
                _ => None,
            },
            None => None,
        },
        _ => None,
    }
}

fn time_key_bytes() -> (r: Vec<u8>)
    ensures
        r@ == time_key(),
{
    let mut r: Vec<u8> = Vec::new();
    r.push(109u8);
    r.push(100u8);
    r.push(102u8);
    r.push(116u8);
    r.push(105u8);
    r.push(109u8);
    r.push(101u8);
    assert(r@ =~= time_key());
    r
}

fn ignore_key_bytes() -> (r: Vec<u8>)
    ensures
        r@ == ignore_key(),
{
    let mut r: Vec<u8> = Vec::new();
    r.push(105u8);
    r.push(103u8);
    r.push(110u8);
    r.push(111u8);
    r.push(114u8);
    r.push(101u8);
    assert(r@ =~= ignore_key());
    r
}

/// Writes the members that stand for the children of a directory.
pub fn children_to_members(children: &Vec<MetadataEntry>) -> (members: Vec<DocMember>)
    ensures
        members_view(members@) == children_doc(children_view(children@), children@.len() as int),
    decreases children,
{
    let ghost view = children_view(children@);
    let mut members: Vec<DocMember> = Vec::new();
    let mut k: usize = 0;
    assert(members_view(members@) =~= children_doc(view, 0));
    while k < children.len()
        invariant
            k <= children.len(),
            view == children_view(children@),
            members_view(members@) == children_doc(view, k as int),
        decreases children.len() - k,
    {
        let child = &children[k];
        assert(view[k as int] == (child.path@, child.node@));
        proof {
            assert(decreases_to!(children => children@));
            assert(decreases_to!(children@ => children@[k as int]));
            assert(decreases_to!(children@[k as int] => children@[k as int].node));
        }
        let value = node_to_document(&child.node);
        let ghost held = members_view(members@);
        members.push(DocMember { key: child.path.clone(), value });
        assert(members_view(members@) =~= held.push((child.path@, node_doc(child.node@))));
        k += 1;
    }
    members
}

/// Writes the document of a metadata tree.
pub fn node_to_document(node: &MetadataNode) -> (doc: DocValue)
    ensures
        doc@ == node_doc(node@),
    decreases node,
{
    match node {
        MetadataNode::File { modified } => {
            let mut members: Vec<DocMember> = Vec::new();
            let value = DocValue::Text { text: modified.clone() };
            members.push(DocMember { key: time_key_bytes(), value });
            let doc = DocValue::Object { members };
            proof {
                lemma_object_view(doc);
                assert(members_view(members@) =~= seq![
                    (time_key(), DocView::Text { text: modified@ }),
                ]);
            }
            doc
        },
        MetadataNode::Dir { children } => {
            proof {
                lemma_dir_view(*node);
            }
            let members = children_to_members(children);
            let doc = DocValue::Object { members };
            proof {
                lemma_object_view(doc);
            }
            doc
        },
    }
}

/// Writes the document of the metadata of all snapshots.
pub fn metadata_to_document(store: &Vec<MetadataEntry>) -> (doc: DocValue)
    ensures
        doc@ == store_doc(children_view(store@)),
{
    let members = children_to_members(store);
    let doc = DocValue::Object { members };
    proof {
        lemma_object_view(doc);
    }
    doc
}

/// Reads the children that the members of an object stand for. Fails
/// where some member stands for no tree.
pub fn members_to_children(members: &Vec<DocMember>) -> (r: Result<Vec<MetadataEntry>, Error>)
    ensures
        match r {
            Ok(children) => doc_children(members_view(members@), members@.len() as int) == Some(
                children_view(children@),
            ),
            Err(e) => e == Error::MalformedStore && doc_children(
                members_view(members@),
                members@.len() as int,
            ) is None,
        },
    decreases members,
{
    let ghost view = members_view(members@);
    let mut children: Vec<MetadataEntry> = Vec::new();
    let mut k: usize = 0;
    assert(children_view(children@) =~= Seq::empty());
    while k < members.len()
        invariant
            k <= members.len(),
            view == members_view(members@),
            doc_children(view, k as int) == Some(children_view(children@)),
        decreases members.len() - k,
    {
        let member = &members[k];
        assert(view[k as int] == (member.key@, member.value@));
        proof {
            assert(decreases_to!(members => members@));
            assert(decreases_to!(members@ => members@[k as int]));
            assert(decreases_to!(members@[k as int] => members@[k as int].value));
        }
        let node = match node_from_document(&member.value) {
            Ok(node) => node,
            Err(e) => {
                proof {
                    lemma_children_fail(view, k + 1, members@.len() as int);
                }
                return Err(e);
            },
        };
        put_entry(&mut children, member.key.clone(), node);
        k += 1;
    }
    Ok(children)
}

/// Once the first `k` members stand for no children, no more of them do.
proof fn lemma_children_fail(members: DocMembers, k: int, n: int)
    requires
        0 <= k <= n <= members.len(),
        doc_children(members, k) is None,
    ensures
        doc_children(members, n) is None,
    decreases n - k,
{
    if k < n {
        lemma_children_fail(members, k, n - 1);
    }
}

/// Reads the metadata tree that a document stands for. Fails where the
/// document is no object, or where a member of a directory stands for no
/// tree.
pub fn node_from_document(doc: &DocValue) -> (r: Result<MetadataNode, Error>)
    ensures
        match r {
            Ok(node) => doc_node(doc@) == Some(node@),
            Err(e) => e == Error::MalformedStore && doc_node(doc@) is None,
        },
    decreases doc,
{
    match doc {
        DocValue::Object { members } => {
            proof {
                lemma_object_view(*doc);
            }
            let ghost view = members_view(members@);
            if members.len() == 1 {
                assert(view[0] == (members@[0].key@, members@[0].value@));
                let key = time_key_bytes();
                if same(members[0].key.as_slice(), key.as_slice()) {
                    match &members[0].value {
                        DocValue::Text { text } => {
                            assert(is_leaf(view));
                            return Ok(MetadataNode::File { modified: text.clone() });
                        },
                        DocValue::Object { .. } => {
                            proof {
                                lemma_object_view(members@[0].value);
                            }
                        },
                        DocValue::Other => {},
                    }
                }
            }
            assert(!is_leaf(view));
            match members_to_children(members) {
                Ok(children) => {
                    let node = MetadataNode::Dir { children };
                    proof {
                        lemma_dir_view(node);
                    }
                    Ok(node)
                },
                Err(e) => Err(e),
            }
        },
        DocValue::Text { .. } => Err(Error::MalformedStore),
        DocValue::Other => Err(Error::MalformedStore),
    }
}

/// Reads the metadata of all snapshots from its document. Fails where the
/// document is no object, or where a member stands for no tree.
pub fn metadata_from_document(doc: &DocValue) -> (r: Result<Vec<MetadataEntry>, Error>)
    ensures
        match r {
            Ok(store) => doc_store(doc@) == Some(children_view(store@)),
            Err(e) => e == Error::MalformedStore && doc_store(doc@) is None,
        },
{
    match doc {
        DocValue::Object { members } => {
            proof {
                lemma_object_view(*doc);
            }
            members_to_children(members)
        },
        DocValue::Text { .. } => Err(Error::MalformedStore),
        DocValue::Other => Err(Error::MalformedStore),
    }
}

/// Writes the document of an ignore specification.
pub fn ignore_to_document(specification: &[u8]) -> (doc: DocValue)
    ensures
        doc@ == ignore_doc(specification@),
{
    let text = slice_to_vec(specification);
    let mut members: Vec<DocMember> = Vec::new();
    members.push(DocMember { key: ignore_key_bytes(), value: DocValue::Text { text } });
    let doc = DocValue::Object { members };
    proof {
        lemma_object_view(doc);
        assert(members_view(members@) =~= seq![
            (ignore_key(), DocView::Text { text: specification@ }),
        ]);
    }
    doc
}

/// `member_index` gives the first member with the key, and none only
/// where no member has it.
pub proof fn lemma_member_index(members: DocMembers, key: Seq<u8>)
    ensures
        match member_index(members, key) {
            Some(i) => {
                &&& 0 <= i < members.len()
                &&& members[i].0 == key
                &&& forall|j: int| 0 <= j < i ==> (#[trigger] members[j]).0 != key
            },
            None => forall|j: int| 0 <= j < members.len() ==> (#[trigger] members[j]).0 != key,
        },
    decreases members.len(),
{
    if members.len() != 0 {
        let front = members.drop_last();
        lemma_member_index(front, key);
        match member_index(front, key) {
            Some(i) => {
                assert forall|j: int| 0 <= j < i implies (#[trigger] members[j]).0 != key by {
                    assert(front[j] == members[j]);
                }
            },
            None => {
                assert forall|j: int| 0 <= j < members.len() - 1 implies (
                #[trigger] members[j]).0 != key by {
                    assert(front[j] == members[j]);
                }
            },
        }
    }
}

/// Reads the ignore specification from its document: the text of the
/// first member under `ignore`. Fails where the document is no object,
/// has no such member, or holds no text there.
pub fn ignore_from_document(doc: &DocValue) -> (r: Result<Vec<u8>, Error>)
    ensures
        match r {
            Ok(specification) => doc_ignore(doc@) == Some(specification@),
            Err(e) => e == Error::MalformedStore && doc_ignore(doc@) is None,
        },
{
    match doc {
        DocValue::Object { members } => {
            proof {
                lemma_object_view(*doc);
            }
            let ghost view = members_view(members@);
            let key = ignore_key_bytes();
            let mut k: usize = 0;
            while k < members.len()
                invariant
                    k <= members.len(),
                    view == members_view(members@),
                    doc@ == (DocView::Object { members: view }),
                    key@ == ignore_key(),
                    forall|j: int| 0 <= j < k ==> (#[trigger] view[j]).0 != ignore_key(),
                decreases members.len() - k,
            {
                assert(view[k as int] == (members@[k as int].key@, members@[k as int].value@));
                if same(members[k].key.as_slice(), key.as_slice()) {
                    proof {
                        lemma_member_index(view, ignore_key());
                    }
                    match &members[k].value {
                        DocValue::Text { text } => {
                            assert(view[k as int].1 == (DocView::Text { text: text@ }));
                            return Ok(text.clone());
                        },
                        DocValue::Object { .. } => {
                            proof {
                                lemma_object_view(members@[k as int].value);
                            }
                            return Err(Error::MalformedStore);
                        },
                        DocValue::Other => {
                            return Err(Error::MalformedStore);
                        },
                    }
                }
                k += 1;
            }
            proof {
                lemma_member_index(view, ignore_key());
            }
            Err(Error::MalformedStore)
        },
        DocValue::Text { .. } => Err(Error::MalformedStore),
        DocValue::Other => Err(Error::MalformedStore),
    }
}

/// Reading the document of an ignore specification gives it back.
pub proof fn lemma_ignore_round_trip(specification: Seq<u8>)
    ensures
        doc_ignore(ignore_doc(specification)) == Some(specification),
{
    let members = seq![(ignore_key(), DocView::Text { text: specification })];
    lemma_member_index(members, ignore_key());
}

/// The members that stand for the first `k` children are as many, each
/// the path of its child with the document of the child.
pub proof fn lemma_children_doc(children: MetaChildren, k: int)
    requires
        0 <= k <= children.len(),
    ensures
        children_doc(children, k).len() == k,
        forall|i: int|
            0 <= i < k ==> (#[trigger] children_doc(children, k)[i]) == (
                children[i].0,
                node_doc(children[i].1),
            ),
    decreases k,
{
    if k > 0 {
        lemma_children_doc(children, k - 1);
    }
}

proof fn lemma_children_round_trip(children: MetaChildren, members: DocMembers, k: int)
    requires
        well_formed(MetaView::Dir { children }),
        0 <= k <= children.len(),
        members.len() == children.len(),
        forall|i: int|
            0 <= i < children.len() ==> (#[trigger] members[i]) == (
                children[i].0,
                node_doc(children[i].1),
            ),
    ensures
        doc_children(members, k) == Some(children.take(k)),
    decreases children, k,
{
    if k > 0 {
        lemma_children_round_trip(children, members, k - 1);
        let before = children.take(k - 1);
        let key = children[k - 1].0;
        let node = children[k - 1].1;
        assert(members[k - 1] == (key, node_doc(node)));
        assert(well_formed(children[k - 1].1));
        lemma_node_round_trip(node);
        assert forall|j: int| 0 <= j < before.len() implies (#[trigger] before[j]).0 != key by {
            assert(before[j] == children[j]);
            assert(children[j].0 != children[k - 1].0);
        }
        lemma_key_index(before, key);
        assert(put(before, key, node) =~= children.take(k));
    } else {
        assert(children.take(0) =~= Seq::empty());
    }
}

/// Reading the document of a metadata tree gives the tree back, where no
/// directory of the tree holds a path twice.
pub proof fn lemma_node_round_trip(node: MetaView)
    requires
        well_formed(node),
    ensures
        doc_node(node_doc(node)) == Some(node),
    decreases node,
{
    match node {
        MetaView::File { modified } => {
            let members = seq![(time_key(), DocView::Text { text: modified })];
            assert(is_leaf(members));
        },
        MetaView::Dir { children } => {
            let members = children_doc(children, children.len() as int);
            lemma_children_doc(children, children.len() as int);
            if members.len() == 1 {
                assert(members[0] == (children[0].0, node_doc(children[0].1)));
                assert(node_doc(children[0].1) is Object);
            }
            assert(!is_leaf(members));
            lemma_children_round_trip(children, members, children.len() as int);
            assert(children.take(children.len() as int) =~= children);
        },
    }
}

/// Reading the document of the metadata of all snapshots gives the
/// metadata back, where no identifier and no path of a directory stands
/// twice.
pub proof fn lemma_store_round_trip(store: MetaChildren)
    requires
        well_formed(MetaView::Dir { children: store }),
    ensures
        doc_store(store_doc(store)) == Some(store),
{
    let members = children_doc(store, store.len() as int);
    lemma_children_doc(store, store.len() as int);
    lemma_children_round_trip(store, members, store.len() as int);
    assert(store.take(store.len() as int) =~= store);
}

} // verus!
