//! Byte-level scanning helpers shared by the frame and record codecs:
//! finding and counting a delimiter byte in a sequence, with executable
//! counterparts proved against the spec-level definitions.

use vstd::prelude::*;

verus! {

/// Index of the first occurrence of `b` in `s`, or `-1` when absent.
pub open spec fn find_byte(s: Seq<u8>, b: u8) -> int
    decreases s.len(),
{
    if s.len() == 0 {
        -1
    } else if s[0] == b {
        0
    } else {
        let r = find_byte(s.skip(1), b);
        if r < 0 {
            -1
        } else {
            r + 1
        }
    }
}

/// How many times `b` occurs in `s`.
pub open spec fn count_byte(s: Seq<u8>, b: u8) -> nat
    decreases s.len(),
{
    if s.len() == 0 {
        0
    } else {
        count_byte(s.skip(1), b) + if s[0] == b {
            1nat
        } else {
            0nat
        }
    }
}

/// `find_byte` points at the first occurrence: the index it returns holds
/// `b`, everything before it does not, and `-1` means `b` is absent.
pub proof fn lemma_find_byte(s: Seq<u8>, b: u8)
    ensures
        find_byte(s, b) < 0 ==> forall|i: int| 0 <= i < s.len() ==> s[i] != b,
        find_byte(s, b) >= 0 ==> {
            &&& find_byte(s, b) < s.len()
            &&& s[find_byte(s, b)] == b
            &&& forall|i: int| 0 <= i < find_byte(s, b) ==> s[i] != b
        },
    decreases s.len(),
{
    if s.len() > 0 && s[0] != b {
        lemma_find_byte(s.skip(1), b);
        let r = find_byte(s.skip(1), b);
        if r < 0 {
            assert forall|i: int| 0 <= i < s.len() implies s[i] != b by {
                if i >= 1 {
                    assert(s.skip(1)[i - 1] == s[i]);
                }
            }
        } else {
            assert(s.skip(1)[r] == s[r + 1]);
            assert forall|i: int| 0 <= i < r + 1 implies s[i] != b by {
                if i >= 1 {
                    assert(s.skip(1)[i - 1] == s[i]);
                }
            }
        }
    }
}

/// The first occurrence determines `find_byte`: a position holding `b` with
/// no `b` before it is exactly what `find_byte` returns.
pub proof fn lemma_find_byte_present(s: Seq<u8>, b: u8, j: int)
    requires
        0 <= j < s.len(),
        s[j] == b,
        forall|i: int| 0 <= i < j ==> s[i] != b,
    ensures
        find_byte(s, b) == j,
    decreases j,
{
    if j > 0 {
        assert(forall|i: int| 0 <= i < s.skip(1).len() ==> s.skip(1)[i] == s[i + 1]);
        lemma_find_byte_present(s.skip(1), b, j - 1);
    }
}

/// When `b` occurs nowhere in `s`, `find_byte` reports absence.
pub proof fn lemma_find_byte_absent(s: Seq<u8>, b: u8)
    requires
        forall|i: int| 0 <= i < s.len() ==> s[i] != b,
    ensures
        find_byte(s, b) == -1,
    decreases s.len(),
{
    if s.len() > 0 {
        assert(forall|i: int| 0 <= i < s.skip(1).len() ==> s.skip(1)[i] == s[i + 1]);
        lemma_find_byte_absent(s.skip(1), b);
    }
}

/// A count of zero means `b` occurs nowhere, and conversely.
pub proof fn lemma_count_byte_zero(s: Seq<u8>, b: u8)
    ensures
        (count_byte(s, b) == 0) <==> (forall|i: int| 0 <= i < s.len() ==> s[i] != b),
    decreases s.len(),
{
    if s.len() > 0 {
        assert(forall|i: int| 0 <= i < s.skip(1).len() ==> s.skip(1)[i] == s[i + 1]);
        lemma_count_byte_zero(s.skip(1), b);
        if s[0] != b && count_byte(s.skip(1), b) == 0 {
            assert(forall|i: int| 0 <= i < s.len() ==> s[i] != b) by {
                assert(forall|i: int| 1 <= i < s.len() ==> s[i] == s.skip(1)[i - 1]);
            }
        }
    }
}

/// An occurrence of `b` makes the count positive.
pub proof fn lemma_count_byte_pos(s: Seq<u8>, b: u8, j: int)
    requires
        0 <= j < s.len(),
        s[j] == b,
    ensures
        count_byte(s, b) >= 1,
    decreases j,
{
    if j > 0 {
        assert(s.skip(1)[j - 1] == s[j]);
        lemma_count_byte_pos(s.skip(1), b, j - 1);
    }
}

/// A single occurrence of `b` makes the count exactly one.
pub proof fn lemma_count_byte_one(s: Seq<u8>, b: u8, j: int)
    requires
        0 <= j < s.len(),
        s[j] == b,
        forall|i: int| 0 <= i < s.len() && i != j ==> s[i] != b,
    ensures
        count_byte(s, b) == 1,
    decreases j,
{
    if j == 0 {
        assert(forall|i: int| 0 <= i < s.skip(1).len() ==> s.skip(1)[i] == s[i + 1]);
        lemma_count_byte_zero(s.skip(1), b);
    } else {
        assert(forall|i: int| 0 <= i < s.skip(1).len() ==> s.skip(1)[i] == s[i + 1]);
        lemma_count_byte_one(s.skip(1), b, j - 1);
    }
}

/// Two distinct occurrences of `b` make the count at least two.
pub proof fn lemma_count_byte_two(s: Seq<u8>, b: u8, j1: int, j2: int)
    requires
        0 <= j1 < j2 < s.len(),
        s[j1] == b,
        s[j2] == b,
    ensures
        count_byte(s, b) >= 2,
    decreases j1,
{
    if j1 == 0 {
        assert(s.skip(1)[j2 - 1] == s[j2]);
        lemma_count_byte_pos(s.skip(1), b, j2 - 1);
    } else {
        assert(s.skip(1)[j1 - 1] == s[j1]);
        assert(s.skip(1)[j2 - 1] == s[j2]);
        lemma_count_byte_two(s.skip(1), b, j1 - 1, j2 - 1);
    }
}

/// First index of `b` in `s` at or after `from`, scanning executably.
pub fn find_byte_from(s: &[u8], from: usize, b: u8) -> (r: Option<usize>)
    requires
        from <= s@.len(),
    ensures
        match r {
            Some(j) => {
                &&& from <= j < s@.len()
                &&& s@[j as int] == b
                &&& forall|i: int| from <= i < j ==> s@[i] != b
            },
            None => forall|i: int| from <= i < s@.len() ==> s@[i] != b,
        },
{
    let mut i: usize = from;
    while i < s.len()
        invariant
            from <= i <= s@.len(),
            forall|k: int| from <= k < i ==> s@[k] != b,
        decreases s@.len() - i,
    {
        if s[i] == b {
            return Some(i);
        }
        i = i + 1;
    }
    None
}

} // verus!
