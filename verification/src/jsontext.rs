//! Documents as JSON text, read and written by the `json` crate.
use vstd::prelude::*;
use vstd::utf8::valid_utf8;
use crate::document::{lemma_member_index, lemma_object_view, member_index, members_view};
use crate::document::{doc_ignore, doc_store, ignore_doc, ignore_key, lemma_children_doc};
use crate::document::{children_doc, ignore_from_document, ignore_to_document};
use crate::document::{metadata_from_document, metadata_to_document, node_doc, store_doc, time_key};
use crate::document::{DocMember, DocMembers, DocValue, DocView};
use crate::error::Error;
use crate::meta::{children_view, well_formed, MetaChildren, MetaView, MetadataEntry};

verus! {

#[verifier::external_type_specification]
#[verifier::external_body]
pub struct ExJsonValue(::json::JsonValue);

#[verifier::external_type_specification]
#[verifier::external_body]
pub struct ExJsonError(::json::JsonError);

/// What a JSON value holds, as a document: for a string its text, for an
/// object its members in order, each key with what its value holds, and
/// `Other` for any other value.
pub uninterp spec fn json_doc(value: ::json::JsonValue) -> DocView;

/// What the JSON value of a text holds: what `json::parse` returns for the
/// text; none where it returns an error.
pub uninterp spec fn json_parsed(text: Seq<u8>) -> Option<DocView>;

/// The JSON text of a document of texts and objects: what
/// `json::stringify` returns for a value that holds the document.
pub uninterp spec fn json_written(doc: DocView) -> Seq<u8>;

/// The document holds texts and objects only.
pub open spec fn textual(doc: DocView) -> bool
    decreases doc,
{
    match doc {
        DocView::Text { .. } => true,
        DocView::Object { members } => forall|i: int|
            0 <= i < members.len() ==> textual((#[trigger] members[i]).1),
        DocView::Other => false,
    }
}

/// The members with `value` under `key`: in the place of the member that
/// had the key, or at the end where none had.
pub open spec fn doc_put(members: DocMembers, key: Seq<u8>, value: DocView) -> DocMembers {
    match member_index(members, key) {
        Some(i) => members.update(i, (key, value)),
        None => members.push((key, value)),
    }
}

/// What a list of members handed out by a JSON object holds.
pub open spec fn handed_out(members: Seq<(Vec<u8>, ::json::JsonValue)>) -> DocMembers {
    Seq::new(members.len(), |i: int| (members[i].0@, json_doc(members[i].1)))
}

/// The longest run of digits in a text that is handed to `json::parse`.
pub const DIGIT_RUN_LIMIT: usize = 32768;

/// An ASCII digit.
pub open spec fn is_digit(b: u8) -> bool {
    48 <= b <= 57
}

/// The number of digits that stand in a row at the end of the first `k`
/// bytes of the text.
pub open spec fn digits_before(text: Seq<u8>, k: int) -> nat
    decreases k,
{
    if k <= 0 || k > text.len() || !is_digit(text[k - 1]) {
        0
    } else {
        1 + digits_before(text, k - 1)
    }
}

/// No more than `limit` digits stand in a row anywhere in the text.
pub open spec fn digit_runs_within(text: Seq<u8>, limit: nat) -> bool {
    forall|k: int| 0 <= k <= text.len() ==> #[trigger] digits_before(text, k) <= limit
}

/// Calls `json::parse` on the text, read as UTF-8 with each invalid
/// sequence replaced. Trusted: the result is a function of the text alone,
/// a value or an error. The parser counts the digits of a fraction in an
/// `i16` and would overflow after 32,768 of them: the `requires` leaves
/// out every text with a longer run of digits. Replacing an invalid
/// sequence adds no digit and joins no two runs.
#[verifier::external_body]
pub(crate) fn parse_value(text: &[u8]) -> (r: Result<::json::JsonValue, ::json::JsonError>)
    requires
        digit_runs_within(text@, DIGIT_RUN_LIMIT as nat),
    ensures
        match r {
            Ok(value) => json_parsed(text@) == Some(json_doc(value)),
            Err(_) => json_parsed(text@) is None,
        },
{
    ::json::parse(&String::from_utf8_lossy(text))
}

/// Calls `json::stringify` on a copy of the value. Trusted: for a value of
/// strings and objects the text is a function of the strings, the keys and
/// their order.
#[verifier::external_body]
pub(crate) fn write_value(value: &::json::JsonValue) -> (text: Vec<u8>)
    requires
        textual(json_doc(*value)),
    ensures
        text@ == json_written(json_doc(*value)),
{
    ::json::stringify(value.clone()).into_bytes()
}

/// Calls `JsonValue::as_str`. Trusted: it gives the text of a string and
/// nothing for any other value.
#[verifier::external_body]
pub(crate) fn value_text(value: &::json::JsonValue) -> (r: Option<Vec<u8>>)
    ensures
        match r {
            Some(text) => json_doc(*value) == (DocView::Text { text: text@ }),
            None => !(json_doc(*value) is Text),
        },
{
    value.as_str().map(|text| text.as_bytes().to_vec())
}

/// Tells an object from the other values and hands out what
/// `Object::iter` walks. Trusted: these are the members of the object, in
/// the order in which they were put in.
#[verifier::external_body]
pub(crate) fn value_members(value: &::json::JsonValue) -> (r: Option<
    Vec<(Vec<u8>, ::json::JsonValue)>,
>)
    ensures
        match r {
            Some(members) => json_doc(*value) == (DocView::Object {
                members: handed_out(members@),
            }),
            None => !(json_doc(*value) is Object),
        },
{
    match value {
        ::json::JsonValue::Object(object) => Some(
            object.iter().map(|(key, below)| (key.as_bytes().to_vec(), below.clone())).collect(),
        ),
        _ => None,
    }
}

/// Calls `JsonValue::from` on the text, read as UTF-8 with each invalid
/// sequence replaced. Trusted: the value is a string, and it holds the
/// text where the text is UTF-8.
#[verifier::external_body]
pub(crate) fn text_value(text: &[u8]) -> (value: ::json::JsonValue)
    ensures
        json_doc(value) is Text,
        valid_utf8(text@) ==> json_doc(value) == (DocView::Text { text: text@ }),
{
    ::json::JsonValue::from(&*String::from_utf8_lossy(text))
}

/// Calls `JsonValue::new_object`. Trusted: the object has no member.
#[verifier::external_body]
pub(crate) fn empty_object() -> (value: ::json::JsonValue)
    ensures
        json_doc(value) == (DocView::Object { members: Seq::empty() }),
{
    ::json::JsonValue::new_object()
}

/// Assigns through `IndexMut<&str>` of `JsonValue`, the key read as UTF-8
/// with each invalid sequence replaced. Trusted: in an object the value
/// takes the place of the member with that key, or comes last where there
/// is none; the other members stay.
#[verifier::external_body]
pub(crate) fn set_member(object: &mut ::json::JsonValue, key: &[u8], value: ::json::JsonValue)
    requires
        json_doc(*old(object)) is Object,
    ensures
        json_doc(*final(object)) is Object,
        valid_utf8(key@) ==> json_doc(*final(object)) == (DocView::Object {
            members: doc_put(json_doc(*old(object))->members, key@, json_doc(value)),
        }),
        textual(json_doc(*old(object))) && textual(json_doc(value)) ==> textual(
            json_doc(*final(object)),
        ),
{
    object[&*String::from_utf8_lossy(key)] = value;
}

/// No key stands twice among the members.
pub open spec fn distinct_members(members: DocMembers) -> bool {
    forall|i: int, j: int|
        0 <= i < j < members.len() ==> (#[trigger] members[i]).0 != (#[trigger] members[j]).0
}

/// The document can be stored as it is: it holds texts and objects only,
/// every text and every key is UTF-8, and no object holds a key twice.
pub open spec fn storable(doc: DocView) -> bool
    decreases doc,
{
    match doc {
        DocView::Text { text } => valid_utf8(text),
        DocView::Object { members } => {
            &&& distinct_members(members)
            &&& forall|i: int|
                0 <= i < members.len() ==> valid_utf8((#[trigger] members[i]).0) && storable(
                    members[i].1,
                )
        },
        DocView::Other => false,
    }
}

/// A document that can be stored as it is holds texts and objects only.
pub proof fn lemma_storable_textual(doc: DocView)
    requires
        storable(doc),
    ensures
        textual(doc),
    decreases doc,
{
    match doc {
        DocView::Object { members } => {
            assert forall|i: int| 0 <= i < members.len() implies textual(
                (#[trigger] members[i]).1,
            ) by {
                lemma_storable_textual(members[i].1);
            }
        },
        _ => {},
    }
}

/// Builds the JSON value of a document; none where the document holds a
/// value that is neither a text nor an object.
pub fn document_to_value(doc: &DocValue) -> (r: Option<::json::JsonValue>)
    ensures
        r is Some <==> textual(doc@),
        r matches Some(value) ==> textual(json_doc(value)) && (storable(doc@) ==> json_doc(value)
            == doc@),
    decreases doc,
{
    match doc {
        DocValue::Text { text } => Some(text_value(text.as_slice())),
        DocValue::Other => None,
        DocValue::Object { members } => {
            proof {
                lemma_object_view(*doc);
            }
            let ghost view = members_view(members@);
            let mut object = empty_object();
            let mut k: usize = 0;
            assert(view.take(0) =~= Seq::empty());
            while k < members.len()
                invariant
                    k <= members.len(),
                    view == members_view(members@),
                    doc@ == (DocView::Object { members: view }),
                    *doc == (DocValue::Object { members: *members }),
                    json_doc(object) is Object,
                    textual(json_doc(object)),
                    forall|i: int| 0 <= i < k ==> textual((#[trigger] view[i]).1),
                    storable(doc@) ==> json_doc(object) == (DocView::Object {
                        members: view.take(k as int),
                    }),
                decreases members.len() - k,
            {
                let member = &members[k];
                assert(view[k as int] == (member.key@, member.value@));
                proof {
                    assert(decreases_to!(*doc => doc->members));
                    assert(decreases_to!(doc->members => doc->members@));
                    assert(decreases_to!(doc->members@ => doc->members@[k as int]));
                    assert(decreases_to!(doc->members@[k as int] => doc->members@[k as int].value));
                }
                let value = match document_to_value(&member.value) {
                    Some(value) => value,
                    None => {
                        assert(!textual(view[k as int].1));
                        return None;
                    },
                };
                let ghost held = json_doc(object);
                set_member(&mut object, member.key.as_slice(), value);
                proof {
                    if storable(doc@) {
                        let before = view.take(k as int);
                        assert(storable(view[k as int].1) && valid_utf8(view[k as int].0));
                        assert forall|j: int| 0 <= j < before.len() implies (#[trigger] before[j]).0
                            != member.key@ by {
                            assert(before[j] == view[j]);
                            assert(view[j].0 != view[k as int].0);
                        }
                        lemma_member_index(before, member.key@);
                        assert(doc_put(before, member.key@, member.value@) =~= view.take(k + 1));
                    }
                }
                k += 1;
            }
            assert(view.take(view.len() as int) =~= view);
            Some(object)
        },
    }
}

/// Reads a JSON value into a document.
pub fn value_to_document(value: &::json::JsonValue) -> (doc: DocValue)
    ensures
        doc@ == json_doc(*value),
    decreases json_doc(*value),
{
    if let Some(text) = value_text(value) {
        return DocValue::Text { text };
    }
    let handed = match value_members(value) {
        Some(handed) => handed,
        None => {
            assert(json_doc(*value) is Other);
            return DocValue::Other;
        },
    };
    let ghost view = handed_out(handed@);
    let mut members: Vec<DocMember> = Vec::new();
    let mut k: usize = 0;
    while k < handed.len()
        invariant
            k <= handed.len(),
            view == handed_out(handed@),
            json_doc(*value) == (DocView::Object { members: view }),
            members@.len() == k,
            forall|i: int| 0 <= i < k ==> (#[trigger] members@[i])@ == view[i],
        decreases handed.len() - k,
    {
        assert(view[k as int] == (handed@[k as int].0@, json_doc(handed@[k as int].1)));
        proof {
            let whole = json_doc(*value);
            assert(decreases_to!(whole => whole->members));
            assert(decreases_to!(whole->members => whole->members[k as int]));
            assert(decreases_to!(whole->members[k as int] => whole->members[k as int].1));
        }
        let below = value_to_document(&handed[k].1);
        members.push(DocMember { key: handed[k].0.clone(), value: below });
        k += 1;
    }
    let doc = DocValue::Object { members };
    proof {
        lemma_object_view(doc);
        assert(members_view(members@) =~= view);
    }
    doc
}

/// Tells whether no more than `DIGIT_RUN_LIMIT` digits stand in a row
/// anywhere in the text.
pub fn digit_runs_fit(text: &[u8]) -> (r: bool)
    ensures
        r == digit_runs_within(text@, DIGIT_RUN_LIMIT as nat),
{
    let mut run: usize = 0;
    let mut k: usize = 0;
    while k < text.len()
        invariant
            k <= text.len(),
            run == digits_before(text@, k as int),
            run <= DIGIT_RUN_LIMIT,
            forall|j: int| 0 <= j <= k ==> #[trigger] digits_before(text@, j) <= DIGIT_RUN_LIMIT,
        decreases text.len() - k,
    {
        if text[k] >= 48 && text[k] <= 57 {
            run += 1;
            if run > DIGIT_RUN_LIMIT {
                assert(digits_before(text@, k + 1) > DIGIT_RUN_LIMIT);
                return false;
            }
        } else {
            run = 0;
        }
        k += 1;
    }
    true
}

/// The document that a JSON text holds: none where more than
/// `DIGIT_RUN_LIMIT` digits stand in a row in the text, or where the text
/// is no JSON.
pub open spec fn text_document(text: Seq<u8>) -> Option<DocView> {
    if digit_runs_within(text, DIGIT_RUN_LIMIT as nat) {
        json_parsed(text)
    } else {
        None
    }
}

/// Reads the document that a JSON text holds. Fails, before the text is
/// parsed, where more than `DIGIT_RUN_LIMIT` digits stand in a row in it,
/// and where the text is no JSON.
pub fn read_document(text: &[u8]) -> (r: Result<DocValue, Error>)
    ensures
        match r {
            Ok(doc) => text_document(text@) == Some(doc@),
            Err(e) => e == Error::MalformedStore && text_document(text@) is None,
        },
{
    if !digit_runs_fit(text) {
        return Err(Error::MalformedStore);
    }
    let value = match parse_value(text) {
        Ok(value) => value,
        Err(_) => { return Err(Error::MalformedStore); },
    };
    Ok(value_to_document(&value))
}

/// Writes a document as JSON text; none where the document holds a value
/// that is neither a text nor an object. Where a key or a text is no
/// UTF-8, or a key stands twice in an object, the text is that of the
/// document with each invalid sequence replaced and the later value under
/// the key.
pub fn write_document(doc: &DocValue) -> (r: Option<Vec<u8>>)
    ensures
        r is Some <==> textual(doc@),
        storable(doc@) ==> (r matches Some(text) && text@ == json_written(doc@)),
{
    proof {
        if storable(doc@) {
            lemma_storable_textual(doc@);
        }
    }
    match document_to_value(doc) {
        Some(value) => Some(write_value(&value)),
        None => None,
    }
}

/// Every path and every time of the tree is UTF-8.
pub open spec fn utf8_tree(node: MetaView) -> bool
    decreases node,
{
    match node {
        MetaView::File { modified } => valid_utf8(modified),
        MetaView::Dir { children } => forall|i: int|
            0 <= i < children.len() ==> valid_utf8((#[trigger] children[i]).0) && utf8_tree(
                children[i].1,
            ),
    }
}

/// Bytes below 128 are UTF-8.
pub proof fn lemma_ascii_is_utf8(bytes: Seq<u8>)
    requires
        forall|i: int| 0 <= i < bytes.len() ==> (#[trigger] bytes[i]) < 128,
    ensures
        valid_utf8(bytes),
{
    assert(bytes.subrange(0, 0) =~= Seq::<u8>::empty());
    assert(vstd::utf8::partial_valid_utf8(bytes, 0));
    assert forall|i: int| 0 <= 0 <= i < bytes.len() <= bytes.len() implies #[trigger]
        vstd::utf8::is_leading_byte_width_1(bytes[i]) by {
        assert(bytes[i] < 128);
    }
    vstd::utf8::partial_valid_utf8_extend_ascii_block(bytes, 0, bytes.len() as int);
    assert(bytes.subrange(0, bytes.len() as int) =~= bytes);
}

proof fn lemma_children_doc_textual(children: MetaChildren)
    ensures
        textual(DocView::Object { members: children_doc(children, children.len() as int) }),
    decreases children, 0int,
{
    let members = children_doc(children, children.len() as int);
    lemma_children_doc(children, children.len() as int);
    assert forall|i: int| 0 <= i < members.len() implies textual((#[trigger] members[i]).1) by {
        lemma_node_doc_textual(children[i].1);
    }
}

/// The document of a metadata tree holds texts and objects only.
pub proof fn lemma_node_doc_textual(node: MetaView)
    ensures
        textual(node_doc(node)),
    decreases node,
{
    match node {
        MetaView::File { modified } => {
            let members = seq![(time_key(), DocView::Text { text: modified })];
            assert forall|i: int| 0 <= i < members.len() implies textual(
                (#[trigger] members[i]).1,
            ) by {}
        },
        MetaView::Dir { children } => {
            lemma_children_doc_textual(children);
        },
    }
}

proof fn lemma_children_doc_storable(children: MetaChildren)
    requires
        well_formed(MetaView::Dir { children }),
        utf8_tree(MetaView::Dir { children }),
    ensures
        storable(DocView::Object { members: children_doc(children, children.len() as int) }),
    decreases children, 0int,
{
    let members = children_doc(children, children.len() as int);
    lemma_children_doc(children, children.len() as int);
    assert forall|i: int| 0 <= i < members.len() implies valid_utf8((#[trigger] members[i]).0)
        && storable(members[i].1) by {
        assert(well_formed(children[i].1));
        assert(valid_utf8(children[i].0) && utf8_tree(children[i].1));
        lemma_node_doc_storable(children[i].1);
    }
    assert forall|i: int, j: int| 0 <= i < j < members.len() implies (#[trigger] members[i]).0 != (
    #[trigger] members[j]).0 by {
        assert(children[i].0 != children[j].0);
    }
}

/// The document of a metadata tree can be stored as it is, where no
/// directory holds a path twice and every path and time is UTF-8.
pub proof fn lemma_node_doc_storable(node: MetaView)
    requires
        well_formed(node),
        utf8_tree(node),
    ensures
        storable(node_doc(node)),
    decreases node,
{
    match node {
        MetaView::File { modified } => {
            lemma_ascii_is_utf8(time_key());
            let members = seq![(time_key(), DocView::Text { text: modified })];
            assert forall|i: int| 0 <= i < members.len() implies valid_utf8(
                (#[trigger] members[i]).0,
            ) && storable(members[i].1) by {}
        },
        MetaView::Dir { children } => {
            lemma_children_doc_storable(children);
        },
    }
}

/// Writes the metadata of all snapshots as JSON text: an object with, under
/// the identifier of each snapshot, the object of its tree.
pub fn metadata_text(store: &Vec<MetadataEntry>) -> (text: Vec<u8>)
    ensures
        well_formed(MetaView::Dir { children: children_view(store@) }) && utf8_tree(
            MetaView::Dir { children: children_view(store@) },
        ) ==> text@ == json_written(store_doc(children_view(store@))),
{
    let doc = metadata_to_document(store);
    proof {
        let view = children_view(store@);
        lemma_children_doc_textual(view);
        if well_formed(MetaView::Dir { children: view }) && utf8_tree(
            MetaView::Dir { children: view },
        ) {
            lemma_children_doc_storable(view);
        }
    }
    match write_document(&doc) {
        Some(text) => text,
        None => {
            // Not reached: such a document holds texts and objects only.
            assert(false);
            Vec::new()
        },
    }
}

/// Reads the metadata of all snapshots from JSON text. Fails where the
/// text holds no document, or where the document stands for no metadata.
pub fn metadata_from_text(text: &[u8]) -> (r: Result<Vec<MetadataEntry>, Error>)
    ensures
        match r {
            Ok(store) => text_document(text@) matches Some(doc) && doc_store(doc) == Some(
                children_view(store@),
            ),
            Err(e) => e == Error::MalformedStore && (text_document(text@) matches Some(doc)
                ==> doc_store(doc) is None),
        },
{
    match read_document(text) {
        Ok(doc) => metadata_from_document(&doc),
        Err(e) => Err(e),
    }
}

/// Writes the ignore specification as JSON text: an object with the
/// specification under `ignore`.
pub fn ignore_text(specification: &[u8]) -> (text: Vec<u8>)
    ensures
        valid_utf8(specification@) ==> text@ == json_written(ignore_doc(specification@)),
{
    let doc = ignore_to_document(specification);
    proof {
        let members = seq![(ignore_key(), DocView::Text { text: specification@ })];
        assert forall|i: int| 0 <= i < members.len() implies textual(
            (#[trigger] members[i]).1,
        ) by {}
        if valid_utf8(specification@) {
            lemma_ascii_is_utf8(ignore_key());
            assert forall|i: int| 0 <= i < members.len() implies valid_utf8(
                (#[trigger] members[i]).0,
            ) && storable(members[i].1) by {}
        }
    }
    match write_document(&doc) {
        Some(text) => text,
        None => {
            // Not reached: such a document holds texts and objects only.
            assert(false);
            Vec::new()
        },
    }
}

/// Reads the ignore specification from JSON text. Fails where the text
/// holds no document, or where the document holds no text under `ignore`.
pub fn ignore_from_text(text: &[u8]) -> (r: Result<Vec<u8>, Error>)
    ensures
        match r {
            Ok(specification) => text_document(text@) matches Some(doc) && doc_ignore(doc)
                == Some(specification@),
            Err(e) => e == Error::MalformedStore && (text_document(text@) matches Some(doc)
                ==> doc_ignore(doc) is None),
        },
{
    match read_document(text) {
        Ok(doc) => ignore_from_document(&doc),
        Err(e) => Err(e),
    }
}

} // verus!
