//! The content log: the records of all snapshots, one on each line.
use vstd::prelude::*;
use vstd::slice::slice_subrange;
use crate::bytes::{append, copy_range, find, find_byte, free_of, position, same};
use crate::bytes::{lemma_first_index, lemma_position, lemma_position_is};
use crate::codec::{id_separator, record_id, NEWLINE};
use crate::error::Error;

verus! {

/// The lines of a log: what stands between its newlines.
pub open spec fn lines(log: Seq<u8>) -> Seq<Seq<u8>>
    decreases log.len(),
{
    let n = position(log, NEWLINE) as int;
    if n < log.len() {
        seq![log.take(n)] + lines(log.skip(n + 1))
    } else {
        seq![log]
    }
}

/// The line is a record with the identifier `id`.
pub open spec fn has_id(line: Seq<u8>, id: Seq<u8>) -> bool {
    record_id(line) == Some(id)
}

/// The index of the first line that is a record with the identifier `id`.
pub open spec fn line_index(all: Seq<Seq<u8>>, id: Seq<u8>) -> Option<int>
    decreases all.len(),
{
    if all.len() == 0 {
        None
    } else if line_index(all.drop_last(), id) is Some {
        line_index(all.drop_last(), id)
    } else if has_id(all.last(), id) {
        Some(all.len() - 1)
    } else {
        None
    }
}

/// The first record of the log with the identifier `id`.
pub open spec fn find_line(log: Seq<u8>, id: Seq<u8>) -> Option<Seq<u8>> {
    match line_index(lines(log), id) {
        Some(i) => Some(lines(log)[i]),
        None => None,
    }
}

/// The log after a record was added: the log, a newline and the record.
pub open spec fn appended(log: Seq<u8>, record: Seq<u8>) -> Seq<u8> {
    log + seq![NEWLINE] + record
}

/// `line_index` gives the first line with the identifier, and none only
/// where no line has it.
pub proof fn lemma_line_index(all: Seq<Seq<u8>>, id: Seq<u8>)
    ensures
        match line_index(all, id) {
            Some(i) => {
                &&& 0 <= i < all.len()
                &&& has_id(all[i], id)
                &&& forall|j: int| 0 <= j < i ==> !has_id(#[trigger] all[j], id)
            },
            None => forall|j: int| 0 <= j < all.len() ==> !has_id(#[trigger] all[j], id),
        },
    decreases all.len(),
{
    if all.len() != 0 {
        let front = all.drop_last();
        lemma_line_index(front, id);
        match line_index(front, id) {
            Some(i) => {
                assert forall|j: int| 0 <= j < i implies !has_id(#[trigger] all[j], id) by {
                    assert(front[j] == all[j]);
                }
            },
            None => {
                assert forall|j: int| 0 <= j < all.len() - 1 implies !has_id(
                    #[trigger] all[j],
                    id,
                ) by {
                    assert(front[j] == all[j]);
                }
            },
        }
    }
}

/// The lines of two texts joined by a newline are the lines of the first,
/// then the lines of the second.
pub proof fn lemma_lines_join(a: Seq<u8>, b: Seq<u8>)
    ensures
        lines(a + seq![NEWLINE] + b) == lines(a) + lines(b),
    decreases a.len(),
{
    let s = a + seq![NEWLINE] + b;
    let n = position(a, NEWLINE) as int;
    lemma_position(a, NEWLINE);
    if n < a.len() {
        assert forall|j: int| 0 <= j < n implies s[j] != NEWLINE by {
            assert(a.take(n)[j] == s[j]);
        }
        lemma_position_is(s, NEWLINE, n);
        let rest = a.skip(n + 1);
        lemma_lines_join(rest, b);
        assert(s.skip(n + 1) =~= rest + seq![NEWLINE] + b);
        assert(s.take(n) =~= a.take(n));
        assert(lines(s) =~= lines(a) + lines(b));
    } else {
        assert forall|j: int| 0 <= j < a.len() implies s[j] != NEWLINE by {
            assert(s[j] == a[j]);
        }
        lemma_position_is(s, NEWLINE, a.len() as int);
        assert(s.skip(a.len() as int + 1) =~= b);
        assert(s.take(a.len() as int) =~= a);
        assert(lines(s) =~= lines(a) + lines(b));
    }
}

/// A text without a newline is one line.
pub proof fn lemma_one_line(s: Seq<u8>)
    requires
        free_of(s, NEWLINE),
    ensures
        lines(s) == seq![s],
{
    lemma_position(s, NEWLINE);
}

/// Adding a record without a newline to a log adds one line: the record.
pub proof fn lemma_lines_appended(log: Seq<u8>, record: Seq<u8>)
    requires
        free_of(record, NEWLINE),
    ensures
        lines(appended(log, record)) == lines(log).push(record),
{
    lemma_lines_join(log, record);
    lemma_one_line(record);
    assert(lines(log) + seq![record] =~= lines(log).push(record));
}

/// Tells whether the line is a record with the identifier `id`: whether
/// `id` is what stands before its first three colons.
pub fn line_has_id(line: &[u8], id: &[u8]) -> (r: bool)
    ensures
        r == has_id(line@, id@),
{
    let mut sep: Vec<u8> = Vec::new();
    sep.push(58u8);
    sep.push(58u8);
    sep.push(58u8);
    assert(sep@ =~= id_separator());
    proof {
        lemma_first_index(line@, id_separator());
    }
    match find(line, sep.as_slice()) {
        Some(i) => {
            let field = slice_subrange(line, 0, i);
            assert(field@ =~= line@.take(i as int));
            same(field, id)
        },
        None => false,
    }
}

/// Finds in the log the first record whose identifier field is `id`.
/// Fails where no line is such a record.
pub fn find_record(log: &[u8], id: &[u8]) -> (r: Result<Vec<u8>, Error>)
    ensures
        match r {
            Ok(record) => find_line(log@, id@) == Some(record@),
            Err(e) => e == Error::RecordNotFound && find_line(log@, id@) is None,
        },
{
    let ghost mut passed: Seq<Seq<u8>> = Seq::empty();
    let mut pos: usize = 0;
    assert(log@.skip(0) =~= log@);
    assert(passed + lines(log@) =~= lines(log@));
    loop
        invariant
            pos <= log.len(),
            lines(log@) == passed + lines(log@.skip(pos as int)),
            forall|j: int| 0 <= j < passed.len() ==> !has_id(#[trigger] passed[j], id@),
        decreases log.len() - pos,
    {
        let ghost rest = log@.skip(pos as int);
        let end = find_byte(log, NEWLINE, pos);
        let line = slice_subrange(log, pos, end);
        assert(line@ =~= rest.take(end - pos));
        let ghost all = lines(log@);
        if line_has_id(line, id) {
            proof {
                lemma_line_index(all, id@);
                assert(lines(rest)[0] == line@);
                assert(all[passed.len() as int] == line@);
                assert forall|j: int| 0 <= j < passed.len() implies !has_id(
                    #[trigger] all[j],
                    id@,
                ) by {
                    assert(all[j] == passed[j]);
                }
            }
            return Ok(copy_range(log, pos, end));
        }
        if end >= log.len() {
            proof {
                lemma_line_index(all, id@);
                assert(lines(rest) =~= seq![line@]);
                assert forall|j: int| 0 <= j < all.len() implies !has_id(#[trigger] all[j], id@) by {
                    if j < passed.len() {
                        assert(all[j] == passed[j]);
                    } else {
                        assert(all[j] == line@);
                    }
                }
            }
            return Err(Error::RecordNotFound);
        }
        proof {
            assert(rest.skip(end - pos + 1) =~= log@.skip(end + 1));
            let grown = passed.push(line@);
            assert(all =~= grown + lines(log@.skip(end + 1)));
            assert forall|j: int| 0 <= j < grown.len() implies !has_id(#[trigger] grown[j], id@) by {
                if j < passed.len() {
                    assert(grown[j] == passed[j]);
                }
            }
            passed = grown;
        }
        pos = end + 1;
    }
}

/// Adds a record to the log, after a newline.
pub fn append_record(log: &mut Vec<u8>, record: &[u8])
    ensures
        final(log)@ == appended(old(log)@, record@),
{
    log.push(NEWLINE);
    append(log, record);
}

} // verus!
