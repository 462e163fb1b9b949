//! The fixed marker vocabulary and literal substring search over characters.
use vstd::prelude::*;

verus! {

/// `<table`: start of the table-start marker (attributes may follow).
pub open spec fn table_open() -> Seq<char> {
    seq!['<', 't', 'a', 'b', 'l', 'e']
}

/// `</table>`: the table-end marker.
pub open spec fn table_close() -> Seq<char> {
    seq!['<', '/', 't', 'a', 'b', 'l', 'e', '>']
}

/// `</tr>`: the row-end marker.
pub open spec fn row_close() -> Seq<char> {
    seq!['<', '/', 't', 'r', '>']
}

/// `<td`: start of the cell-start marker (attributes may follow).
pub open spec fn cell_open() -> Seq<char> {
    seq!['<', 't', 'd']
}

/// `</td>`: the cell-end marker.
pub open spec fn cell_close() -> Seq<char> {
    seq!['<', '/', 't', 'd', '>']
}

/// `pat` occurs in `t` starting at index `i`.
pub open spec fn matches_at(t: Seq<char>, pat: Seq<char>, i: int) -> bool {
    0 <= i && i + pat.len() <= t.len() && t.subrange(i, i + pat.len()) == pat
}

/// The first index at or after `i` where `pat` occurs in `t`.
pub open spec fn find_from(t: Seq<char>, pat: Seq<char>, i: int) -> Option<int>
    decreases t.len() + 1 - i,
{
    if i < 0 || i + pat.len() > t.len() {
        None
    } else if matches_at(t, pat, i) {
        Some(i)
    } else {
        find_from(t, pat, i + 1)
    }
}

/// What `find_from` returns: the least matching index at or after `i`.
pub proof fn lemma_find_from(t: Seq<char>, pat: Seq<char>, i: int)
    requires
        0 <= i,
    ensures
        match find_from(t, pat, i) {
            Some(j) => i <= j && j + pat.len() <= t.len() && matches_at(t, pat, j) && forall|k: int|
                i <= k < j ==> !matches_at(t, pat, k),
            None => forall|k: int| i <= k ==> !matches_at(t, pat, k),
        },
    decreases t.len() + 1 - i,
{
    if i + pat.len() > t.len() {
    } else if matches_at(t, pat, i) {
    } else {
        lemma_find_from(t, pat, i + 1);
    }
}

/// Whether `pat` occurs in `t` at index `i`.
pub fn matches_at_exec(t: &Vec<char>, pat: &Vec<char>, i: usize) -> (r: bool)
    ensures
        r == matches_at(t@, pat@, i as int),
{
    if pat.len() > t.len() || i > t.len() - pat.len() {
        return false;
    }
    let mut k: usize = 0;
    while k < pat.len()
        invariant
            k <= pat@.len(),
            i + pat@.len() <= t@.len(),
            t@.len() <= usize::MAX,
            t@.subrange(i as int, i + k) == pat@.subrange(0, k as int),
        decreases pat.len() - k,
    {
        if t[i + k] != pat[k] {
            assert(t@.subrange(i as int, i + pat@.len())[k as int] != pat@[k as int]);
            return false;
        }
        k += 1;
        assert(t@.subrange(i as int, i + k) == t@.subrange(i as int, i + k - 1).push(t@[i + k - 1]));
        assert(pat@.subrange(0, k as int) == pat@.subrange(0, k - 1).push(pat@[k - 1]));
    }
    assert(pat@.subrange(0, pat@.len() as int) == pat@);
    true
}

/// The first index at or after `from` where `pat` occurs in `t`.
pub fn find_from_exec(t: &Vec<char>, pat: &Vec<char>, from: usize) -> (r: Option<usize>)
    ensures
        r matches Some(j) ==> find_from(t@, pat@, from as int) == Some(j as int),
        r is None ==> find_from(t@, pat@, from as int) is None,
{
    if pat.len() > t.len() {
        return None;
    }
    let last = t.len() - pat.len();
    let mut i = from;
    while i <= last
        invariant
            from <= i,
            last == t@.len() - pat@.len(),
            find_from(t@, pat@, from as int) == find_from(t@, pat@, i as int),
        decreases last + 1 - i,
    {
        if matches_at_exec(t, pat, i) {
            return Some(i);
        }
        if i == last {
            assert(find_from(t@, pat@, i + 1) is None);
            return None;
        }
        i += 1;
    }
    None
}

} // verus!
