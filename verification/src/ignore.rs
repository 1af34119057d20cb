//! Which paths a scan leaves out.
use vstd::prelude::*;
use crate::bytes::{append, contains, contains_seq};

verus! {

/// The name of the engine's own directory: `.rvscw`.
pub open spec fn control_directory() -> Seq<u8> {
    seq![46u8, 114u8, 118u8, 115u8, 99u8, 119u8]
}

/// The ignore specification for the given tokens: the engine's own
/// directory, a space, and the tokens.
pub open spec fn specification_text(tokens: Seq<u8>) -> Seq<u8> {
    control_directory() + seq![32u8] + tokens
}

/// A path is ignored where the ignore specification holds it as a
/// substring.
pub open spec fn ignored(path: Seq<u8>, ignore: Seq<u8>) -> bool {
    contains_seq(ignore, path)
}

/// Tells whether a scan leaves `path` out: whether the ignore
/// specification holds the path as a substring.
pub fn is_ignored(path: &[u8], ignore: &[u8]) -> (r: bool)
    ensures
        r == ignored(path@, ignore@),
{
    contains(ignore, path)
}

/// Builds the ignore specification from the tokens that the user gave:
/// the engine's own directory comes first.
pub fn ignore_specification(tokens: &[u8]) -> (r: Vec<u8>)
    ensures
        r@ == specification_text(tokens@),
{
    let mut r: Vec<u8> = Vec::new();
    r.push(46u8);
    r.push(114u8);
    r.push(118u8);
    r.push(115u8);
    r.push(99u8);
    r.push(119u8);
    r.push(32u8);
    assert(r@ =~= control_directory() + seq![32u8]);
    append(&mut r, tokens);
    r
}

} // verus!
