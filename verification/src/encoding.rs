//! The text form of file contents: base64 with the standard alphabet and
//! padding, as the `base64` crate writes and reads it.
use vstd::prelude::*;
use crate::bytes::free_of;
use crate::codec::{entries_view, FileEntry, COLON, NEWLINE};
use crate::error::Error;

verus! {

/// The base64 text of `content`: what `base64::encode` returns for it.
pub uninterp spec fn base64_text(content: Seq<u8>) -> Seq<u8>;

/// The bytes that `text` stands for, where it is base64: what
/// `base64::decode` returns for it.
pub uninterp spec fn base64_content(text: Seq<u8>) -> Option<Seq<u8>>;

#[verifier::external_type_specification]
#[verifier::external_body]
pub struct ExDecodeError(base64::DecodeError);

/// A letter, a digit, `+`, `/` or the padding `=`.
pub open spec fn is_base64_symbol(b: u8) -> bool {
    ||| 65 <= b <= 90
    ||| 97 <= b <= 122
    ||| 48 <= b <= 57
    ||| b == 43
    ||| b == 47
    ||| b == 61
}

/// Every byte of `text` is a base64 symbol.
pub open spec fn base64_symbols(text: Seq<u8>) -> bool {
    forall|i: int| 0 <= i < text.len() ==> is_base64_symbol(#[trigger] text[i])
}

/// Calls `base64::encode`. Trusted: the result is the base64 text of
/// `content`, it holds only symbols of the standard alphabet and the
/// padding, and `base64::decode` reads it back to `content`. The crate's
/// size computation overflows only for inputs of more than `isize::MAX`
/// bytes, which no slice holds.
#[verifier::external_body]
pub(crate) fn base64_encode(content: &[u8]) -> (text: Vec<u8>)
    ensures
        text@ == base64_text(content@),
        base64_symbols(text@),
        base64_content(text@) == Some(content@),
{
    base64::encode(content).into_bytes()
}

/// Calls `base64::decode`. Trusted: the result is a function of `text`
/// alone, the bytes where `text` is base64 and an error where it is not.
#[verifier::external_body]
pub(crate) fn base64_decode(text: &[u8]) -> (r: Result<Vec<u8>, base64::DecodeError>)
    ensures
        match r {
            Ok(content) => base64_content(text@) == Some(content@),
            Err(_) => base64_content(text@) is None,
        },
{
    base64::decode(text)
}

/// The files with each content replaced by its base64 text.
pub open spec fn encoded_files(files: Seq<(Seq<u8>, Seq<u8>)>) -> Seq<(Seq<u8>, Seq<u8>)> {
    Seq::new(files.len(), |k: int| (files[k].0, base64_text(files[k].1)))
}

/// The files with each text replaced by the content it stands for; none
/// where some text is not base64.
pub open spec fn decoded_files(texts: Seq<(Seq<u8>, Seq<u8>)>) -> Option<Seq<(Seq<u8>, Seq<u8>)>> {
    if forall|k: int| 0 <= k < texts.len() ==> base64_content(#[trigger] texts[k].1) is Some {
        Some(Seq::new(texts.len(), |k: int| (texts[k].0, base64_content(texts[k].1)->0)))
    } else {
        None
    }
}

/// A text of base64 symbols holds neither a colon nor a newline.
pub proof fn lemma_symbols_are_plain(text: Seq<u8>)
    requires
        base64_symbols(text),
    ensures
        free_of(text, COLON),
        free_of(text, NEWLINE),
{
    assert forall|i: int| 0 <= i < text.len() implies text[i] != COLON && text[i] != NEWLINE by {
        assert(is_base64_symbol(text[i]));
    }
}

/// The base64 text of `content`.
pub fn encode_content(content: &[u8]) -> (text: Vec<u8>)
    ensures
        text@ == base64_text(content@),
        encodes_well(content@),
        free_of(text@, COLON),
        free_of(text@, NEWLINE),
{
    let text = base64_encode(content);
    proof {
        lemma_symbols_are_plain(text@);
    }
    text
}

/// The content that a base64 text stands for; fails where the text is not
/// base64.
pub fn decode_content(text: &[u8]) -> (r: Result<Vec<u8>, Error>)
    ensures
        match r {
            Ok(content) => base64_content(text@) == Some(content@),
            Err(e) => e == Error::MalformedStore && base64_content(text@) is None,
        },
{
    match base64_decode(text) {
        Ok(content) => Ok(content),
        Err(_) => Err(Error::MalformedStore),
    }
}

/// Replaces the text of each file by the content it stands for; fails where
/// some text is not base64.
pub fn decode_files(texts: Vec<FileEntry>) -> (r: Result<Vec<FileEntry>, Error>)
    ensures
        match r {
            Ok(files) => decoded_files(entries_view(texts@)) == Some(entries_view(files@)),
            Err(e) => e == Error::MalformedStore && decoded_files(entries_view(texts@)) is None,
        },
{
    let ghost all = entries_view(texts@);
    let mut files: Vec<FileEntry> = Vec::new();
    let mut i: usize = 0;
    while i < texts.len()
        invariant
            i <= texts.len(),
            all == entries_view(texts@),
            files@.len() == i,
            forall|k: int|
                0 <= k < i ==> base64_content(#[trigger] all[k].1) == Some(files@[k].data@)
                    && files@[k].path@ == all[k].0,
        decreases texts.len() - i,
    {
        let content = match decode_content(texts[i].data.as_slice()) {
            Ok(content) => content,
            Err(e) => {
                assert(base64_content(all[i as int].1) is None);
                return Err(e);
            },
        };
        let path = texts[i].path.clone();
        assert(path@ == all[i as int].0);
        files.push(FileEntry { path, data: content });
        i += 1;
    }
    assert(decoded_files(all)->0 =~= entries_view(files@));
    Ok(files)
}

/// The base64 text of `content` holds only base64 symbols and reads back
/// to `content`.
pub open spec fn encodes_well(content: Seq<u8>) -> bool {
    &&& base64_symbols(base64_text(content))
    &&& base64_content(base64_text(content)) == Some(content)
}

/// The content of the file encodes well.
pub open spec fn file_encodes_well(file: (Seq<u8>, Seq<u8>)) -> bool {
    encodes_well(file.1)
}

/// The content of every file encodes well.
pub open spec fn all_encode_well(files: Seq<(Seq<u8>, Seq<u8>)>) -> bool {
    forall|k: int| 0 <= k < files.len() ==> file_encodes_well(#[trigger] files[k])
}

/// Where every content encodes well, the texts of the files read back to
/// the files, and no text holds a colon or a newline.
pub proof fn lemma_encoded_files(files: Seq<(Seq<u8>, Seq<u8>)>)
    requires
        all_encode_well(files),
    ensures
        decoded_files(encoded_files(files)) == Some(files),
        forall|k: int|
            0 <= k < files.len() ==> free_of((#[trigger] encoded_files(files)[k]).1, COLON)
                && free_of(encoded_files(files)[k].1, NEWLINE),
{
    let texts = encoded_files(files);
    assert forall|k: int| 0 <= k < texts.len() implies base64_content(#[trigger] texts[k].1)
        == Some(files[k].1) && free_of(texts[k].1, COLON) && free_of(texts[k].1, NEWLINE) by {
        assert(file_encodes_well(files[k]));
        lemma_symbols_are_plain(texts[k].1);
    }
    assert(decoded_files(texts)->0 =~= files);
}

} // verus!
