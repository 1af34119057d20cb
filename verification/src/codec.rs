//! The text form of a snapshot record, and its inverse.
//!
//! A record is an identifier, three colons, a title, two colons and a
//! payload. The payload holds, for each file, its path, a colon, the text
//! form of its content and a colon.
use vstd::prelude::*;
use vstd::slice::slice_subrange;
use crate::bytes::{append, copy_range, find, find_byte, first_index, free_of, occurs_at};
use crate::bytes::position;
use crate::encoding::{decode_files, decoded_files};
use crate::error::Error;
use crate::bytes::{lemma_first_index, lemma_first_index_is, lemma_position, lemma_position_is};

verus! {

/// The byte that ends a path and a content in a payload.
pub const COLON: u8 = 58;

/// The byte that parts the records of a log.
pub const NEWLINE: u8 = 10;

/// A file of a snapshot: its path, and either its content or the text that
/// stands for the content in a payload.
#[derive(Debug, PartialEq, Eq)]
pub struct FileEntry {
    pub path: Vec<u8>,
    pub data: Vec<u8>,
}

impl View for FileEntry {
    type V = (Seq<u8>, Seq<u8>);

    open spec fn view(&self) -> (Seq<u8>, Seq<u8>) {
        (self.path@, self.data@)
    }
}

/// The files of a list, each as its path and its data.
pub open spec fn entries_view(files: Seq<FileEntry>) -> Seq<(Seq<u8>, Seq<u8>)> {
    Seq::new(files.len(), |i: int| files[i]@)
}

/// What parts the identifier from the title.
pub open spec fn id_separator() -> Seq<u8> {
    seq![COLON, COLON, COLON]
}

/// What parts the title from the payload.
pub open spec fn title_separator() -> Seq<u8> {
    seq![COLON, COLON]
}

/// One file in a payload.
pub open spec fn entry_text(path: Seq<u8>, text: Seq<u8>) -> Seq<u8> {
    path + seq![COLON] + text + seq![COLON]
}

/// The payload that holds the given files in order.
pub open spec fn payload_text(files: Seq<(Seq<u8>, Seq<u8>)>) -> Seq<u8>
    decreases files.len(),
{
    if files.len() == 0 {
        Seq::empty()
    } else {
        entry_text(files[0].0, files[0].1) + payload_text(files.skip(1))
    }
}

/// The record of a snapshot.
pub open spec fn record_text(id: Seq<u8>, title: Seq<u8>, payload: Seq<u8>) -> Seq<u8> {
    id + id_separator() + title + title_separator() + payload
}

/// A payload grows by one entry when a file is added at its end.
pub proof fn lemma_payload_push(files: Seq<(Seq<u8>, Seq<u8>)>, last: (Seq<u8>, Seq<u8>))
    ensures
        payload_text(files.push(last)) == payload_text(files) + entry_text(last.0, last.1),
    decreases files.len(),
{
    let all = files.push(last);
    if files.len() == 0 {
        assert(all.skip(1) =~= Seq::empty());
        assert(payload_text(all.skip(1)) =~= Seq::empty());
        assert(payload_text(all) =~= entry_text(last.0, last.1));
    } else {
        lemma_payload_push(files.skip(1), last);
        assert(all.skip(1) =~= files.skip(1).push(last));
        assert(payload_text(all) =~= payload_text(files) + entry_text(last.0, last.1));
    }
}

/// The payload of two lists of files, one after the other, is the payload
/// of the first followed by that of the second: the payload of a directory
/// can be spliced into that of the directory above it.
pub proof fn lemma_payload_concat(a: Seq<(Seq<u8>, Seq<u8>)>, b: Seq<(Seq<u8>, Seq<u8>)>)
    ensures
        payload_text(a + b) == payload_text(a) + payload_text(b),
    decreases b.len(),
{
    if b.len() == 0 {
        assert(a + b =~= a);
        assert(payload_text(a) + payload_text(b) =~= payload_text(a));
    } else {
        let head = b.drop_last();
        lemma_payload_concat(a, head);
        lemma_payload_push(a + head, b.last());
        lemma_payload_push(head, b.last());
        assert((a + head).push(b.last()) =~= a + b);
        assert(head.push(b.last()) =~= b);
        assert(payload_text(a + b) =~= payload_text(a) + payload_text(b));
    }
}

/// Writes the payload of the given files: for each its path, a colon, its
/// data and a colon.
pub fn encode_payload(files: &Vec<FileEntry>) -> (r: Vec<u8>)
    ensures
        r@ == payload_text(entries_view(files@)),
{
    let mut r: Vec<u8> = Vec::new();
    let mut i: usize = 0;
    while i < files.len()
        invariant
            i <= files.len(),
            r@ == payload_text(entries_view(files@.take(i as int))),
        decreases files.len() - i,
    {
        proof {
            let done = entries_view(files@.take(i as int));
            lemma_payload_push(done, files@[i as int]@);
            assert(entries_view(files@.take(i + 1)) =~= done.push(files@[i as int]@));
        }
        append(&mut r, files[i].path.as_slice());
        r.push(COLON);
        append(&mut r, files[i].data.as_slice());
        r.push(COLON);
        i += 1;
        assert(r@ =~= payload_text(entries_view(files@.take(i as int))));
    }
    assert(files@.take(files@.len() as int) =~= files@);
    r
}

/// Writes a record: the identifier, three colons, the title, two colons and
/// the payload.
pub fn encode(id: &[u8], title: &[u8], payload: &[u8]) -> (r: Vec<u8>)
    ensures
        r@ == record_text(id@, title@, payload@),
{
    let mut r: Vec<u8> = Vec::new();
    append(&mut r, id);
    r.push(COLON);
    r.push(COLON);
    r.push(COLON);
    append(&mut r, title);
    r.push(COLON);
    r.push(COLON);
    append(&mut r, payload);
    assert(r@ =~= record_text(id@, title@, payload@));
    r
}

/// Neither the path nor the data of the file holds a colon.
pub open spec fn colon_free_entry(file: (Seq<u8>, Seq<u8>)) -> bool {
    free_of(file.0, COLON) && free_of(file.1, COLON)
}

/// No path and no data of the files holds a colon.
pub open spec fn colon_free(files: Seq<(Seq<u8>, Seq<u8>)>) -> bool {
    forall|k: int| 0 <= k < files.len() ==> colon_free_entry(#[trigger] files[k])
}

/// Reads a payload: while bytes are left, a path up to the next colon and
/// a text up to the colon after it. A payload that ends inside an entry
/// holds no files.
pub open spec fn parse_payload(s: Seq<u8>) -> Option<Seq<(Seq<u8>, Seq<u8>)>>
    decreases s.len(),
{
    if s.len() == 0 {
        Some(Seq::empty())
    } else {
        let i = position(s, COLON) as int;
        let t = s.skip(i + 1);
        let j = position(t, COLON) as int;
        if i >= s.len() || j >= t.len() {
            None
        } else {
            match parse_payload(t.skip(j + 1)) {
                None => None,
                Some(rest) => Some(seq![(s.take(i), t.take(j))] + rest),
            }
        }
    }
}

/// The files `front`, followed by those of `back` where it holds any.
pub open spec fn followed_by(
    front: Seq<(Seq<u8>, Seq<u8>)>,
    back: Option<Seq<(Seq<u8>, Seq<u8>)>>,
) -> Option<Seq<(Seq<u8>, Seq<u8>)>> {
    match back {
        Some(rest) => Some(front + rest),
        None => None,
    }
}

/// What `parse_payload` reads is free of colons and writes back to the
/// payload it was read from.
pub proof fn lemma_parse_payload_sound(s: Seq<u8>)
    ensures
        parse_payload(s) matches Some(files) ==> colon_free(files) && payload_text(files) == s,
    decreases s.len(),
{
    if s.len() != 0 {
        let i = position(s, COLON) as int;
        let t = s.skip(i + 1);
        let j = position(t, COLON) as int;
        if i < s.len() && j < t.len() {
            let tail = t.skip(j + 1);
            lemma_parse_payload_sound(tail);
            if let Some(rest) = parse_payload(tail) {
                let first = (s.take(i), t.take(j));
                let files = seq![first] + rest;
                lemma_position(s, COLON);
                lemma_position(t, COLON);
                assert(files.skip(1) =~= rest);
                assert(files[0] == first);
                assert(entry_text(first.0, first.1) + tail =~= s);
                assert forall|k: int| 0 <= k < files.len() implies colon_free_entry(
                    #[trigger] files[k],
                ) by {
                    if k > 0 {
                        assert(files[k] == rest[k - 1]);
                    }
                }
            }
        }
    }
}

/// Reading the payload of files that hold no colon gives the files back.
pub proof fn lemma_parse_payload_text(files: Seq<(Seq<u8>, Seq<u8>)>)
    requires
        colon_free(files),
    ensures
        parse_payload(payload_text(files)) == Some(files),
    decreases files.len(),
{
    if files.len() != 0 {
        let path = files[0].0;
        let text = files[0].1;
        let rest = files.skip(1);
        let tail = payload_text(rest);
        let s = payload_text(files);
        assert(s =~= path + seq![COLON] + text + seq![COLON] + tail);
        assert(colon_free_entry(files[0]));
        assert forall|k: int| 0 <= k < rest.len() implies colon_free_entry(#[trigger] rest[k]) by {
            assert(rest[k] == files[k + 1]);
        }
        lemma_parse_payload_text(rest);
        lemma_position_is(s, COLON, path.len() as int);
        let t = s.skip(path.len() as int + 1);
        assert(t =~= text + seq![COLON] + tail);
        lemma_position_is(t, COLON, text.len() as int);
        assert(t.skip(text.len() as int + 1) =~= tail);
        assert(s.take(path.len() as int) =~= path);
        assert(t.take(text.len() as int) =~= text);
        assert(seq![(path, text)] + rest =~= files);
    }
}

/// Splits a payload into its files: each path with the text that follows
/// it. Fails where the payload ends inside an entry.
pub fn split_payload(s: &[u8]) -> (r: Result<Vec<FileEntry>, Error>)
    ensures
        match r {
            Ok(files) => parse_payload(s@) == Some(entries_view(files@)),
            Err(e) => e == Error::MalformedStore && parse_payload(s@) is None,
        },
{
    let mut files: Vec<FileEntry> = Vec::new();
    let mut pos: usize = 0;
    assert(s@.skip(0) =~= s@);
    assert(followed_by(entries_view(files@), parse_payload(s@)) == parse_payload(s@)) by {
        if let Some(rest) = parse_payload(s@) {
            assert(entries_view(files@) + rest =~= rest);
        }
    }
    while pos < s.len()
        invariant
            pos <= s.len(),
            parse_payload(s@) == followed_by(
                entries_view(files@),
                parse_payload(s@.skip(pos as int)),
            ),
        decreases s.len() - pos,
    {
        let ghost left = s@.skip(pos as int);
        let ghost done = entries_view(files@);
        let i = find_byte(s, COLON, pos);
        if i >= s.len() {
            return Err(Error::MalformedStore);
        }
        assert(left.skip(i - pos + 1) =~= s@.skip(i + 1));
        let j = find_byte(s, COLON, i + 1);
        if j >= s.len() {
            return Err(Error::MalformedStore);
        }
        let path = copy_range(s, pos, i);
        let data = copy_range(s, i + 1, j);
        files.push(FileEntry { path, data });
        proof {
            let t = s@.skip(i + 1);
            assert(t.skip(j - i) =~= s@.skip(j + 1));
            assert(left.take(i - pos) =~= path@);
            assert(t.take(j - i - 1) =~= data@);
            let first = (path@, data@);
            assert(entries_view(files@) =~= done.push(first));
            if let Some(rest) = parse_payload(s@.skip(j + 1)) {
                assert(done + (seq![first] + rest) =~= done.push(first) + rest);
            }
        }
        pos = j + 1;
    }
    proof {
        assert(parse_payload(s@.skip(pos as int)) == Some(Seq::<(Seq<u8>, Seq<u8>)>::empty()));
        assert(entries_view(files@) + Seq::<(Seq<u8>, Seq<u8>)>::empty() =~= entries_view(files@));
    }
    Ok(files)
}

/// A record read back: its identifier, its title and its files, each a path
/// with the text that stands for its content.
pub struct RecordView {
    pub id: Seq<u8>,
    pub title: Seq<u8>,
    pub files: Seq<(Seq<u8>, Seq<u8>)>,
}

/// A record read back: its identifier, its title and its files.
#[derive(Debug, PartialEq, Eq)]
pub struct Record {
    pub id: Vec<u8>,
    pub title: Vec<u8>,
    pub files: Vec<FileEntry>,
}

impl View for Record {
    type V = RecordView;

    open spec fn view(&self) -> RecordView {
        RecordView { id: self.id@, title: self.title@, files: entries_view(self.files@) }
    }
}

/// The identifier field of a line: what stands before its first three
/// colons. A line without three colons in a row has none.
pub open spec fn record_id(line: Seq<u8>) -> Option<Seq<u8>> {
    match first_index(line, id_separator()) {
        Some(i) => Some(line.take(i)),
        None => None,
    }
}

/// Reads a record: the identifier up to the first three colons, the title
/// up to the next two, and the files of the payload after them.
pub open spec fn parse_record(s: Seq<u8>) -> Option<RecordView> {
    match first_index(s, id_separator()) {
        None => None,
        Some(i) => {
            let rest = s.skip(i + 3);
            match first_index(rest, title_separator()) {
                None => None,
                Some(j) => match parse_payload(rest.skip(j + 2)) {
                    None => None,
                    Some(files) => Some(RecordView { id: s.take(i), title: rest.take(j), files }),
                },
            }
        },
    }
}

/// A text that starts with `front`, which holds no colon, and goes on with
/// the colons of `sep`, has `sep` first at the end of `front`.
proof fn lemma_separator_after(front: Seq<u8>, sep: Seq<u8>, back: Seq<u8>)
    requires
        free_of(front, COLON),
        sep.len() > 0,
        sep[0] == COLON,
    ensures
        first_index(front + sep + back, sep) == Some(front.len() as int),
        (front + sep + back).take(front.len() as int) == front,
        (front + sep + back).skip((front.len() + sep.len()) as int) == back,
{
    let s = front + sep + back;
    let n = front.len() as int;
    assert(s.subrange(n, n + sep.len()) =~= sep);
    assert forall|j: int| 0 <= j < n implies !occurs_at(s, sep, j) by {
        if j + sep.len() <= s.len() {
            assert(s.subrange(j, j + sep.len())[0] == front[j]);
        }
    }
    lemma_first_index_is(s, sep, n);
    assert(s.take(n) =~= front);
    assert(s.skip(n + sep.len()) =~= back);
}

/// Reading the record of an identifier, a title and files that hold no
/// colon gives all three back.
pub proof fn lemma_parse_record_text(id: Seq<u8>, title: Seq<u8>, files: Seq<(Seq<u8>, Seq<u8>)>)
    requires
        free_of(id, COLON),
        free_of(title, COLON),
        colon_free(files),
    ensures
        parse_record(record_text(id, title, payload_text(files))) == Some(
            RecordView { id, title, files },
        ),
        record_id(record_text(id, title, payload_text(files))) == Some(id),
{
    let payload = payload_text(files);
    let s = record_text(id, title, payload);
    let rest = title + title_separator() + payload;
    lemma_record_join(id, title, payload);
    lemma_separator_after(id, id_separator(), rest);
    lemma_separator_after(title, title_separator(), payload);
    lemma_parse_payload_text(files);
}

/// A text in which `sep` stands at `i` is what stands before `i`, then
/// `sep`, then what stands after it.
proof fn lemma_split_at(s: Seq<u8>, sep: Seq<u8>, i: int)
    requires
        occurs_at(s, sep, i),
    ensures
        s == s.take(i) + sep + s.skip(i + sep.len()),
{
    assert(s =~= s.take(i) + s.subrange(i, i + sep.len()) + s.skip(i + sep.len()));
}

/// What `parse_record` reads writes back to the record it was read from.
pub proof fn lemma_parse_record_sound(s: Seq<u8>)
    ensures
        parse_record(s) matches Some(r) ==> colon_free(r.files) && record_text(
            r.id,
            r.title,
            payload_text(r.files),
        ) == s,
{
    lemma_first_index(s, id_separator());
    if let Some(i) = first_index(s, id_separator()) {
        let rest = s.skip(i + 3);
        lemma_first_index(rest, title_separator());
        if let Some(j) = first_index(rest, title_separator()) {
            let payload = rest.skip(j + 2);
            lemma_parse_payload_sound(payload);
            if parse_payload(payload) is Some {
                lemma_split_at(s, id_separator(), i);
                lemma_split_at(rest, title_separator(), j);
                lemma_record_join(s.take(i), rest.take(j), payload);
            }
        }
    }
}

/// A record is its identifier, the three colons, and the rest: the title,
/// the two colons and the payload.
proof fn lemma_record_join(id: Seq<u8>, title: Seq<u8>, payload: Seq<u8>)
    ensures
        record_text(id, title, payload) == id + id_separator() + (title + title_separator()
            + payload),
{
    assert(record_text(id, title, payload) =~= id + id_separator() + (title + title_separator()
        + payload));
}

fn id_separator_bytes() -> (r: Vec<u8>)
    ensures
        r@ == id_separator(),
{
    let mut r: Vec<u8> = Vec::new();
    r.push(COLON);
    r.push(COLON);
    r.push(COLON);
    assert(r@ =~= id_separator());
    r
}

fn title_separator_bytes() -> (r: Vec<u8>)
    ensures
        r@ == title_separator(),
{
    let mut r: Vec<u8> = Vec::new();
    r.push(COLON);
    r.push(COLON);
    assert(r@ =~= title_separator());
    r
}

/// Splits a record into its identifier, its title and its files, each file
/// with the text of its content as it stands in the payload.
pub fn split_record(s: &[u8]) -> (r: Result<Record, Error>)
    ensures
        match r {
            Ok(record) => parse_record(s@) == Some(record@),
            Err(e) => e == Error::MalformedStore && parse_record(s@) is None,
        },
{
    let sep3 = id_separator_bytes();
    let sep2 = title_separator_bytes();
    proof {
        lemma_first_index(s@, id_separator());
    }
    let i = match find(s, sep3.as_slice()) {
        Some(i) => i,
        None => { return Err(Error::MalformedStore); },
    };
    assert(id_separator().len() == 3 && occurs_at(s@, id_separator(), i as int));
    let len = s.len();
    let rest = slice_subrange(s, i + 3, len);
    assert(rest@ =~= s@.skip(i + 3));
    proof {
        lemma_first_index(rest@, title_separator());
    }
    let j = match find(rest, sep2.as_slice()) {
        Some(j) => j,
        None => { return Err(Error::MalformedStore); },
    };
    assert(title_separator().len() == 2 && occurs_at(
        rest@,
        title_separator(),
        j as int,
    ));
    let rest_len = rest.len();
    let payload = slice_subrange(rest, j + 2, rest_len);
    assert(payload@ =~= rest@.skip(j + 2));
    let files = match split_payload(payload) {
        Ok(files) => files,
        Err(e) => { return Err(e); },
    };
    let id = copy_range(s, 0, i);
    let title = copy_range(rest, 0, j);
    assert(id@ =~= s@.take(i as int));
    assert(title@ =~= rest@.take(j as int));
    Ok(Record { id, title, files })
}

/// Reads a record and turns the text of each file into its content.
pub open spec fn decode_record(s: Seq<u8>) -> Option<RecordView> {
    match parse_record(s) {
        None => None,
        Some(r) => match decoded_files(r.files) {
            None => None,
            Some(files) => Some(RecordView { id: r.id, title: r.title, files }),
        },
    }
}

/// Reading back the record written for an identifier, a title and the
/// texts of some files gives the identifier, the title and the files with
/// their contents, where identifier, title, paths and texts hold no colon.
pub proof fn lemma_decode_inverts_encode(
    id: Seq<u8>,
    title: Seq<u8>,
    texts: Seq<(Seq<u8>, Seq<u8>)>,
    files: Seq<(Seq<u8>, Seq<u8>)>,
)
    requires
        free_of(id, COLON),
        free_of(title, COLON),
        colon_free(texts),
        decoded_files(texts) == Some(files),
    ensures
        decode_record(record_text(id, title, payload_text(texts))) == Some(
            RecordView { id, title, files },
        ),
{
    lemma_parse_record_text(id, title, texts);
}

/// Decodes a record into its identifier, its title and its files, each
/// with its content. Fails where the record lacks a separator, where its
/// payload ends inside an entry, or where a text is not base64.
pub fn decode(record: &[u8]) -> (r: Result<Record, Error>)
    ensures
        match r {
            Ok(snapshot) => decode_record(record@) == Some(snapshot@),
            Err(e) => e == Error::MalformedStore && decode_record(record@) is None,
        },
{
    let parts = match split_record(record) {
        Ok(parts) => parts,
        Err(e) => { return Err(e); },
    };
    let Record { id, title, files: texts } = parts;
    match decode_files(texts) {
        Ok(files) => Ok(Record { id, title, files }),
        Err(e) => Err(e),
    }
}

} // verus!
