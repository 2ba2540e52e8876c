//! Character-scanning primitives shared by the lexer and the parser.
//!
//! All searches are expressed over `Seq<char>` views; the executable
//! functions walk a `&str` by character index and are proved to return
//! exactly what the spec functions describe.

use vstd::prelude::*;

verus! {

/// The delimiter `d` occurs in `s` starting exactly at position `i`.
pub open spec fn delim_at(s: Seq<char>, d: Seq<char>, i: int) -> bool {
    0 <= i && i + d.len() <= s.len() && s.subrange(i, i + d.len() as int) =~= d
}

/// Position of the first occurrence of the delimiter `d` in `s` at or
/// after `from`, or `s.len()` when there is none.
pub open spec fn find_sub(s: Seq<char>, d: Seq<char>, from: int) -> int
    decreases s.len() - from
    when 0 <= from <= s.len() && d.len() > 0
{
    if from + d.len() > s.len() {
        s.len() as int
    } else if delim_at(s, d, from) {
        from
    } else {
        find_sub(s, d, from + 1)
    }
}

pub proof fn lemma_find_sub(s: Seq<char>, d: Seq<char>, from: int)
    requires
        0 <= from <= s.len(),
        d.len() > 0,
    ensures
        from <= find_sub(s, d, from) <= s.len(),
        find_sub(s, d, from) == s.len() || find_sub(s, d, from) + d.len() <= s.len(),
        find_sub(s, d, from) + d.len() <= s.len() ==> delim_at(s, d, find_sub(s, d, from)),
        forall|k: int| from <= k < find_sub(s, d, from) ==> !delim_at(s, d, k),
    decreases s.len() - from,
{
    if from + d.len() <= s.len() && !delim_at(s, d, from) {
        lemma_find_sub(s, d, from + 1);
    } else if from + d.len() > s.len() {
        assert forall|k: int| from <= k < find_sub(s, d, from) implies !delim_at(s, d, k) by {}
    }
}

/// Executable test for `delim_at`.
pub fn delim_at_exec(s: &str, d: &str, i: usize) -> (b: bool)
    requires
        i <= s@.len(),
    ensures
        b == delim_at(s@, d@, i as int),
{
    let s_len = s.unicode_len();
    let d_len = d.unicode_len();
    if d_len > s_len - i {
        assert(!delim_at(s@, d@, i as int));
        return false;
    }
    let mut j: usize = 0;
    while j < d_len
        invariant
            i + d_len <= s_len,
            s_len == s@.len(),
            d_len == d@.len(),
            0 <= j <= d_len,
            forall|k: int| 0 <= k < j ==> s@[i + k] == d@[k],
        decreases d_len - j,
    {
        if s.get_char(i + j) != d.get_char(j) {
            assert(s@.subrange(i as int, i + d_len as int)[j as int] != d@[j as int]);
            assert(!delim_at(s@, d@, i as int));
            return false;
        }
        j += 1;
    }
    assert(s@.subrange(i as int, i + d_len as int) =~= d@);
    true
}

/// Executable search for a delimiter string; returns `find_sub`.
pub fn find_sub_exec(s: &str, d: &str, from: usize) -> (r: usize)
    requires
        from <= s@.len(),
        d@.len() > 0,
    ensures
        r == find_sub(s@, d@, from as int),
        from <= r <= s@.len(),
{
    let len = s.unicode_len();
    let d_len = d.unicode_len();
    let mut j: usize = from;
    while j < len && d_len <= len - j
        invariant
            from <= j <= len,
            len == s@.len(),
            d_len == d@.len(),
            d_len > 0,
            find_sub(s@, d@, from as int) == find_sub(s@, d@, j as int),
        decreases len - j,
    {
        if delim_at_exec(s, d, j) {
            return j;
        }
        j += 1;
    }
    assert(j + d_len > len);
    len
}

} // verus!
