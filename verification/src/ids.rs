//! The identifiers of snapshots.
use vstd::prelude::*;
use crate::bytes::free_of;
use crate::codec::{COLON, NEWLINE};

verus! {

/// A lower-case hexadecimal digit or a hyphen.
pub open spec fn is_id_symbol(b: u8) -> bool {
    ||| 48 <= b <= 57
    ||| 97 <= b <= 102
    ||| b == 45
}

/// The text of an identifier: 36 bytes, each a lower-case hexadecimal
/// digit or a hyphen.
pub open spec fn is_id_text(id: Seq<u8>) -> bool {
    &&& id.len() == 36
    &&& forall|i: int| 0 <= i < id.len() ==> is_id_symbol(#[trigger] id[i])
}

/// Calls `uuid::Uuid::new_v4` and writes the result with its `Display`,
/// the hyphenated lower-case form. Trusted: the text has 36 bytes, each a
/// lower-case hexadecimal digit or a hyphen. Nothing is said of which
/// identifier comes: two calls may give any two. The call panics where
/// the system gives no random bytes.
#[verifier::external_body]
pub(crate) fn random_id() -> (id: Vec<u8>)
    ensures
        is_id_text(id@),
{
    uuid::Uuid::new_v4().to_string().into_bytes()
}

/// The text of an identifier holds neither a colon nor a newline.
pub proof fn lemma_id_text_plain(id: Seq<u8>)
    requires
        is_id_text(id),
    ensures
        free_of(id, COLON),
        free_of(id, NEWLINE),
{
    assert forall|i: int| 0 <= i < id.len() implies id[i] != COLON && id[i] != NEWLINE by {
        assert(is_id_symbol(id[i]));
    }
}

/// A fresh identifier for a snapshot.
pub fn fresh_id() -> (id: Vec<u8>)
    ensures
        is_id_text(id@),
        free_of(id@, COLON),
        free_of(id@, NEWLINE),
{
    let id = random_id();
    proof {
        lemma_id_text_plain(id@);
    }
    id
}

} // verus!
