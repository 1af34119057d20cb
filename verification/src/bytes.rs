//! Searching and joining byte strings.
use vstd::prelude::*;

verus! {

/// The pattern `pat` stands in `s` at index `i`.
pub open spec fn occurs_at(s: Seq<u8>, pat: Seq<u8>, i: int) -> bool {
    &&& 0 <= i
    &&& i + pat.len() <= s.len()
    &&& s.subrange(i, i + pat.len()) == pat
}

/// The pattern `pat` stands somewhere in `s`.
pub open spec fn contains_seq(s: Seq<u8>, pat: Seq<u8>) -> bool {
    exists|i: int| occurs_at(s, pat, i)
}

/// The least index at or after `start` where `pat` stands in `s`.
pub open spec fn first_index_from(s: Seq<u8>, pat: Seq<u8>, start: int) -> Option<int>
    decreases s.len() + 1 - start,
{
    if start < 0 || start + pat.len() > s.len() {
        None
    } else if occurs_at(s, pat, start) {
        Some(start)
    } else {
        first_index_from(s, pat, start + 1)
    }
}

/// The least index where `pat` stands in `s`.
pub open spec fn first_index(s: Seq<u8>, pat: Seq<u8>) -> Option<int> {
    first_index_from(s, pat, 0)
}

/// No byte of `s` equals `b`.
pub open spec fn free_of(s: Seq<u8>, b: u8) -> bool {
    forall|i: int| 0 <= i < s.len() ==> s[i] != b
}

/// `first_index_from` finds an occurrence with none before it, and finds
/// nothing only where there is none.
pub proof fn lemma_first_index_from(s: Seq<u8>, pat: Seq<u8>, start: int)
    requires
        0 <= start,
    ensures
        match first_index_from(s, pat, start) {
            Some(i) => {
                &&& start <= i
                &&& occurs_at(s, pat, i)
                &&& forall|j: int| start <= j < i ==> !occurs_at(s, pat, j)
            },
            None => forall|j: int| start <= j ==> !occurs_at(s, pat, j),
        },
    decreases s.len() + 1 - start,
{
    if start + pat.len() > s.len() {
    } else if occurs_at(s, pat, start) {
    } else {
        lemma_first_index_from(s, pat, start + 1);
    }
}

/// The first index is the least occurrence; there is none exactly when the
/// pattern does not occur.
pub proof fn lemma_first_index(s: Seq<u8>, pat: Seq<u8>)
    ensures
        first_index(s, pat) is Some <==> contains_seq(s, pat),
        first_index(s, pat) matches Some(i) ==> {
            &&& occurs_at(s, pat, i)
            &&& forall|j: int| 0 <= j < i ==> !occurs_at(s, pat, j)
        },
{
    lemma_first_index_from(s, pat, 0);
}

/// An occurrence with none before it is the first index.
pub proof fn lemma_first_index_is(s: Seq<u8>, pat: Seq<u8>, i: int)
    requires
        occurs_at(s, pat, i),
        forall|j: int| 0 <= j < i ==> !occurs_at(s, pat, j),
    ensures
        first_index(s, pat) == Some(i),
{
    lemma_first_index_from(s, pat, 0);
}

/// The index of the first byte of `s` equal to `b`, or the length of `s`
/// where there is none.
pub open spec fn position(s: Seq<u8>, b: u8) -> nat
    decreases s.len(),
{
    if s.len() == 0 || s[0] == b {
        0
    } else {
        1 + position(s.skip(1), b)
    }
}

/// `position` stops at the first byte equal to `b` and passes none.
pub proof fn lemma_position(s: Seq<u8>, b: u8)
    ensures
        position(s, b) <= s.len(),
        free_of(s.take(position(s, b) as int), b),
        position(s, b) < s.len() ==> s[position(s, b) as int] == b,
        position(s, b) == s.len() <==> free_of(s, b),
    decreases s.len(),
{
    if s.len() == 0 || s[0] == b {
    } else {
        let t = s.skip(1);
        lemma_position(t, b);
        let p = position(t, b) as int;
        let u = s.take(p + 1);
        assert forall|i: int| 0 <= i < u.len() implies u[i] != b by {
            if i > 0 {
                assert(t.take(p)[i - 1] == s[i]);
            }
        }
        if free_of(s, b) {
            assert forall|i: int| 0 <= i < t.len() implies t[i] != b by {
                assert(t[i] == s[i + 1]);
            }
        }
        if position(t, b) == t.len() {
            assert forall|i: int| 0 <= i < s.len() implies s[i] != b by {
                if i > 0 {
                    assert(t[i - 1] == s[i]);
                }
            }
        }
    }
}

/// An index that holds `b`, or the length, with no `b` before it, is the
/// position of `b`.
pub proof fn lemma_position_is(s: Seq<u8>, b: u8, p: int)
    requires
        0 <= p <= s.len(),
        forall|j: int| 0 <= j < p ==> s[j] != b,
        p < s.len() ==> s[p] == b,
    ensures
        position(s, b) == p,
    decreases s.len(),
{
    if s.len() == 0 || s[0] == b {
    } else {
        let t = s.skip(1);
        assert forall|j: int| 0 <= j < p - 1 implies t[j] != b by {
            assert(t[j] == s[j + 1]);
        }
        lemma_position_is(t, b, p - 1);
    }
}

/// Tells whether `pat` stands in `s` at index `i`.
pub fn matches_at(s: &[u8], pat: &[u8], i: usize) -> (r: bool)
    ensures
        r == occurs_at(s@, pat@, i as int),
{
    if pat.len() > s.len() || i > s.len() - pat.len() {
        return false;
    }
    let mut k: usize = 0;
    while k < pat.len()
        invariant
            k <= pat.len(),
            i + pat.len() <= s.len(),
            forall|j: int| 0 <= j < k ==> s@[i + j] == pat@[j],
        decreases pat.len() - k,
    {
        if s[i + k] != pat[k] {
            assert(s@.subrange(i as int, i + pat@.len())[k as int] != pat@[k as int]);
            return false;
        }
        k += 1;
    }
    assert(s@.subrange(i as int, i + pat@.len()) =~= pat@);
    true
}

/// Finds the first place where `pat` stands in `s`.
pub fn find(s: &[u8], pat: &[u8]) -> (r: Option<usize>)
    ensures
        match r {
            Some(i) => first_index(s@, pat@) == Some(i as int),
            None => first_index(s@, pat@) is None,
        },
{
    if pat.len() > s.len() {
        return None;
    }
    let last: usize = s.len() - pat.len();
    let mut i: usize = 0;
    while i < last
        invariant
            last == s.len() - pat.len(),
            i <= last,
            first_index(s@, pat@) == first_index_from(s@, pat@, i as int),
        decreases last - i,
    {
        if matches_at(s, pat, i) {
            return Some(i);
        }
        i += 1;
    }
    if matches_at(s, pat, last) {
        Some(last)
    } else {
        assert(first_index_from(s@, pat@, last + 1) is None);
        None
    }
}

/// Tells whether `pat` stands somewhere in `s`.
pub fn contains(s: &[u8], pat: &[u8]) -> (r: bool)
    ensures
        r == contains_seq(s@, pat@),
{
    proof {
        lemma_first_index(s@, pat@);
    }
    find(s, pat).is_some()
}

/// Appends the bytes of `src` to `dst`.
pub fn append(dst: &mut Vec<u8>, src: &[u8])
    ensures
        final(dst)@ == old(dst)@ + src@,
{
    let mut k: usize = 0;
    while k < src.len()
        invariant
            k <= src.len(),
            dst@ == old(dst)@ + src@.subrange(0, k as int),
        decreases src.len() - k,
    {
        dst.push(src[k]);
        k += 1;
        assert(dst@ =~= old(dst)@ + src@.subrange(0, k as int));
    }
    assert(src@.subrange(0, src@.len() as int) =~= src@);
}

/// Finds the first byte equal to `b` at or after `from`; gives the length
/// of `s` where there is none.
pub fn find_byte(s: &[u8], b: u8, from: usize) -> (r: usize)
    requires
        from <= s.len(),
    ensures
        r == from + position(s@.skip(from as int), b),
        from <= r <= s.len(),
{
    let mut k: usize = from;
    while k < s.len() && s[k] != b
        invariant
            from <= k <= s.len(),
            forall|j: int| from <= j < k ==> s@[j] != b,
        decreases s.len() - k,
    {
        k += 1;
    }
    proof {
        lemma_position_is(s@.skip(from as int), b, k - from);
    }
    k
}

/// Tells whether the two byte strings are equal.
pub fn same(a: &[u8], b: &[u8]) -> (r: bool)
    ensures
        r == (a@ == b@),
{
    if a.len() != b.len() {
        return false;
    }
    let r = matches_at(a, b, 0);
    assert(a@.subrange(0, a@.len() as int) =~= a@);
    r
}

/// A copy of the bytes of `s` from `from` up to `to`.
pub fn copy_range(s: &[u8], from: usize, to: usize) -> (r: Vec<u8>)
    requires
        from <= to <= s.len(),
    ensures
        r@ == s@.subrange(from as int, to as int),
{
    let mut r: Vec<u8> = Vec::new();
    let mut k: usize = from;
    while k < to
        invariant
            from <= k <= to <= s.len(),
            r@ == s@.subrange(from as int, k as int),
        decreases to - k,
    {
        r.push(s[k]);
        k += 1;
        assert(r@ =~= s@.subrange(from as int, k as int));
    }
    r
}

} // verus!
