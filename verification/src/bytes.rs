//! Searching and comparing in byte buffers.

use vstd::prelude::*;

verus! {

/// Tells whether `buf` and `pattern` hold the same byte wherever both have one.
pub open spec fn agrees(buf: Seq<u8>, pattern: Seq<u8>) -> bool {
    forall|i: int| 0 <= i < buf.len() && i < pattern.len() ==> buf[i] == pattern[i]
}

/// Tells whether `s` begins with the whole of `word`.
pub open spec fn starts_with(s: Seq<u8>, word: Seq<u8>) -> bool {
    s.len() >= word.len() && s.take(word.len() as int) == word
}

/// Tells whether `i` is where `c` first occurs in `s`, or the length of `s`
/// where it does not occur.
pub open spec fn is_first(s: Seq<u8>, c: u8, i: int) -> bool {
    &&& 0 <= i <= s.len()
    &&& i < s.len() ==> s[i] == c
    &&& forall|j: int| 0 <= j < i ==> s[j] != c
}

/// Where `c` first occurs in `s`; the length of `s` where it does not occur.
pub open spec fn first_index(s: Seq<u8>, c: u8) -> int {
    choose|i: int| is_first(s, c, i)
}

/// Tells whether `i` is where two adjacent `c` first occur in `s`, or the
/// length of `s` where none does.
pub open spec fn is_first_pair(s: Seq<u8>, c: u8, i: int) -> bool {
    &&& 0 <= i <= s.len()
    &&& i < s.len() ==> i + 1 < s.len() && s[i] == c && s[i + 1] == c
    &&& forall|j: int| 0 <= j < i && j + 1 < s.len() ==> !(s[j] == c && #[trigger] s[j + 1] == c)
}

/// Where two adjacent `c` first occur in `s`; its length where none does.
pub open spec fn first_pair(s: Seq<u8>, c: u8) -> int {
    choose|i: int| is_first_pair(s, c, i)
}

/// There is only one first occurrence.
pub proof fn lemma_first_index(s: Seq<u8>, c: u8, k: int)
    requires
        is_first(s, c, k),
    ensures
        first_index(s, c) == k,
{
    let i = first_index(s, c);
    assert(is_first(s, c, i));
    if i < k {
        assert(s[i] == c);
    } else if k < i {
        assert(s[k] == c);
    }
}

/// There is only one first pair.
pub proof fn lemma_first_pair(s: Seq<u8>, c: u8, k: int)
    requires
        is_first_pair(s, c, k),
    ensures
        first_pair(s, c) == k,
{
    let i = first_pair(s, c);
    assert(is_first_pair(s, c, i));
    if i < k {
        assert(s[i] == c && s[i + 1] == c);
    } else if k < i {
        assert(s[k] == c && s[k + 1] == c);
    }
}

/// The first occurrence is within the sequence, the byte is there, and not
/// before.
pub proof fn lemma_first_index_is_first(s: Seq<u8>, c: u8)
    ensures
        is_first(s, c, first_index(s, c)),
{
    let k = choose|k: int| 0 <= k < s.len() && s[k] == c && forall|j: int| 0 <= j < k ==> s[j] != c;
    if exists|k: int| 0 <= k < s.len() && s[k] == c && forall|j: int| 0 <= j < k ==> s[j] != c {
        assert(is_first(s, c, k));
    } else if exists|k: int| 0 <= k < s.len() && s[k] == c {
        lemma_least_occurrence(s, c, choose|k: int| 0 <= k < s.len() && s[k] == c);
    } else {
        assert(is_first(s, c, s.len() as int));
    }
}

/// Below any occurrence there is a first one.
proof fn lemma_least_occurrence(s: Seq<u8>, c: u8, k: int)
    requires
        0 <= k < s.len(),
        s[k] == c,
    ensures
        exists|m: int| 0 <= m < s.len() && s[m] == c && forall|j: int| 0 <= j < m ==> s[j] != c,
    decreases k,
{
    if forall|j: int| 0 <= j < k ==> s[j] != c {
        assert(0 <= k < s.len() && s[k] == c && forall|j: int| 0 <= j < k ==> s[j] != c);
    } else {
        let j = choose|j: int| 0 <= j < k && s[j] == c;
        lemma_least_occurrence(s, c, j);
    }
}

/// Tells whether `buf` can still be, or already starts with, `pattern`.
pub fn agrees_with(buf: &[u8], pattern: &[u8]) -> (r: bool)
    ensures
        r == agrees(buf@, pattern@),
{
    let mut i: usize = 0;
    while i < buf.len() && i < pattern.len()
        invariant
            i <= buf@.len(),
            i <= pattern@.len(),
            forall|j: int| 0 <= j < i ==> buf@[j] == pattern@[j],
        decreases buf@.len() - i,
    {
        if buf[i] != pattern[i] {
            return false;
        }
        i += 1;
    }
    true
}

/// Tells whether the bytes of `buf` from `from` up to `to` begin with `word`.
pub fn has_word(buf: &[u8], from: usize, to: usize, word: &[u8]) -> (r: bool)
    requires
        from <= to <= buf@.len(),
    ensures
        r == starts_with(buf@.subrange(from as int, to as int), word@),
{
    let ghost s = buf@.subrange(from as int, to as int);
    if to - from < word.len() {
        return false;
    }
    let mut i: usize = 0;
    while i < word.len()
        invariant
            from <= to <= buf@.len(),
            to - from >= word@.len(),
            i <= word@.len(),
            s == buf@.subrange(from as int, to as int),
            forall|j: int| 0 <= j < i ==> s[j] == word@[j],
        decreases word@.len() - i,
    {
        if buf[from + i] != word[i] {
            assert(s.take(word@.len() as int)[i as int] != word@[i as int]);
            return false;
        }
        i += 1;
    }
    assert(s.take(word@.len() as int) =~= word@);
    true
}

/// Finds where `c` first occurs in `buf` from `from` up to `to`; `to` where
/// it does not occur.
pub fn find_byte(buf: &[u8], from: usize, to: usize, c: u8) -> (k: usize)
    requires
        from <= to <= buf@.len(),
    ensures
        from <= k <= to,
        k - from == first_index(buf@.subrange(from as int, to as int), c),
        k < to ==> buf@[k as int] == c,
        forall|j: int| from <= j < k ==> buf@[j] != c,
{
    let ghost s = buf@.subrange(from as int, to as int);
    let mut k: usize = from;
    while k < to && buf[k] != c
        invariant
            from <= k <= to <= buf@.len(),
            s == buf@.subrange(from as int, to as int),
            forall|j: int| 0 <= j < k - from ==> s[j] != c,
        decreases to - k,
    {
        k += 1;
    }
    proof {
        assert(is_first(s, c, k - from));
        lemma_first_index(s, c, k - from);
        assert forall|j: int| from <= j < k implies buf@[j] != c by {
            assert(s[j - from] != c);
        }
    }
    k
}

/// Finds where two adjacent `c` first occur in `buf` from `from` up to `to`;
/// `to` where none does.
pub fn find_pair(buf: &[u8], from: usize, to: usize, c: u8) -> (k: usize)
    requires
        from <= to <= buf@.len(),
    ensures
        from <= k <= to,
        k - from == first_pair(buf@.subrange(from as int, to as int), c),
        k < to ==> k + 1 < to,
{
    let ghost s = buf@.subrange(from as int, to as int);
    let mut k: usize = from;
    while k < to
        invariant
            from <= k <= to <= buf@.len(),
            s == buf@.subrange(from as int, to as int),
            forall|j: int| 0 <= j < k - from && j + 1 < s.len() ==> !(s[j] == c && #[trigger] s[j + 1] == c),
        decreases to - k,
    {
        if to - k >= 2 && buf[k] == c && buf[k + 1] == c {
            proof {
                assert(is_first_pair(s, c, k - from));
                lemma_first_pair(s, c, k - from);
            }
            return k;
        }
        k += 1;
    }
    proof {
        assert(is_first_pair(s, c, s.len() as int));
        lemma_first_pair(s, c, s.len() as int);
    }
    to
}

} // verus!
