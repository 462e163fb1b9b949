//! Properties that relate the generator and the parser to their inputs.
use vstd::prelude::*;
use crate::generate::generated;
use crate::markup::{
    cell_open, find_from, lemma_find_from, matches_at, row_close, table_close, table_open,
};
use crate::parse::{
    emitted_lines, malformed_rows, parsed, row_segments, scan_row, strip_breaks,
    table_region, RowScan, StructuralFormatError,
};

verus! {

/// Generation is deterministic: equal inputs give the same markup.
pub proof fn lemma_generate_deterministic(a: Seq<Seq<char>>, b: Seq<Seq<char>>, sep: char)
    requires
        a == b,
    ensures
        generated(a, sep) == generated(b, sep),
{
}

/// Text without a table-start marker is refused as having no table, with no
/// output lines.
pub proof fn lemma_no_table_start(t: Seq<char>, sep: char)
    requires
        forall|i: int| !matches_at(t, table_open(), i),
    ensures
        parsed(t, sep) == Err::<(Seq<Seq<char>>, Seq<int>), _>(StructuralFormatError::NoTableStart),
{
    lemma_find_from(t, table_open(), 0);
}

/// Text with a table-start marker but no table-end marker is refused as an
/// unterminated table, with no output lines.
pub proof fn lemma_no_table_end(t: Seq<char>, sep: char)
    requires
        exists|i: int| matches_at(t, table_open(), i),
        forall|i: int| !matches_at(t, table_close(), i),
    ensures
        parsed(t, sep) == Err::<(Seq<Seq<char>>, Seq<int>), _>(
            StructuralFormatError::UnterminatedTable,
        ),
{
    let i = choose|i: int| matches_at(t, table_open(), i);
    lemma_find_from(t, table_open(), 0);
    let ts = find_from(t, table_open(), 0)->Some_0;
    lemma_find_from(t, table_close(), ts + 6);
}

/// Removing line breaks adds no `<`.
pub proof fn lemma_strip_breaks_no_tag(s: Seq<char>)
    requires
        forall|i: int| 0 <= i < s.len() ==> #[trigger] s[i] != '<',
    ensures
        forall|i: int|
            0 <= i < strip_breaks(s).len() ==> #[trigger] strip_breaks(s)[i] != '<',
    decreases s.len(),
{
    if s.len() > 0 {
        let d = s.drop_last();
        assert forall|i: int| 0 <= i < d.len() implies #[trigger] d[i] != '<' by {
            assert(d[i] == s[i]);
        }
        lemma_strip_breaks_no_tag(d);
        assert(s.last() == s[s.len() - 1]);
        let r = strip_breaks(s);
        let p = strip_breaks(d);
        assert forall|i: int| 0 <= i < r.len() implies #[trigger] r[i] != '<' by {
            if i < p.len() {
                assert(r[i] == p[i]);
            }
        }
    }
}

/// A marker that starts with `<` does not occur in text without `<`.
proof fn lemma_no_marker(s: Seq<char>, pat: Seq<char>)
    requires
        pat.len() > 0,
        pat[0] == '<',
        forall|i: int| 0 <= i < s.len() ==> #[trigger] s[i] != '<',
    ensures
        find_from(s, pat, 0) is None,
{
    lemma_find_from(s, pat, 0);
    if let Some(j) = find_from(s, pat, 0) {
        assert(s.subrange(j, j + pat.len())[0] == s[j]);
    }
}

/// A table region without any `<` (empty, or only whitespace and text)
/// yields no line and no defect.
pub proof fn lemma_empty_region(t: Seq<char>, sep: char)
    requires
        table_region(t) is Ok,
        forall|i: int|
            0 <= i < table_region(t)->Ok_0.len() ==> #[trigger] table_region(t)->Ok_0[i] != '<',
    ensures
        parsed(t, sep) == Ok::<_, StructuralFormatError>((Seq::<Seq<char>>::empty(), Seq::<int>::empty())),
{
    let region = table_region(t)->Ok_0;
    assert forall|i: int| 0 <= i < region.len() implies #[trigger] region[i] != '<' by {
    }
    lemma_strip_breaks_no_tag(region);
    let body = strip_breaks(region);
    let segs = row_segments(region);
    lemma_no_marker(body, row_close());
    lemma_no_marker(body, cell_open());
    assert(body.subrange(0, body.len() as int) =~= body);
    assert(segs == seq![body]);
    assert(scan_row(body) is Noise);
    assert(segs.drop_last() =~= Seq::<Seq<char>>::empty());
    assert(emitted_lines(segs.drop_last(), sep) =~= Seq::<Seq<char>>::empty());
    assert(malformed_rows(segs.drop_last()) =~= Seq::<int>::empty());
    assert(emitted_lines(segs, sep) =~= Seq::<Seq<char>>::empty());
    assert(malformed_rows(segs) =~= Seq::<int>::empty());
}

/// Lines emitted for two runs of segments placed one after the other.
pub proof fn lemma_emitted_lines_append(a: Seq<Seq<char>>, b: Seq<Seq<char>>, sep: char)
    ensures
        emitted_lines(a + b, sep) == emitted_lines(a, sep) + emitted_lines(b, sep),
    decreases b.len(),
{
    if b.len() == 0 {
        assert(a + b =~= a);
        assert(emitted_lines(a, sep) + emitted_lines(b, sep) =~= emitted_lines(a, sep));
    } else {
        lemma_emitted_lines_append(a, b.drop_last(), sep);
        assert((a + b).drop_last() =~= a + b.drop_last());
        assert((a + b).last() == b.last());
        match scan_row(b.last()) {
            RowScan::Fields(f) => {
                if f.len() > 0 {
                    assert(emitted_lines(a + b, sep) =~= emitted_lines(a, sep) + emitted_lines(
                        b,
                        sep,
                    ));
                }
            },
            _ => {},
        }
    }
}

/// The index of a malformed segment is reported.
pub proof fn lemma_malformed_reported(segs: Seq<Seq<char>>, k: int)
    requires
        0 <= k < segs.len(),
        scan_row(segs[k]) is Malformed,
    ensures
        malformed_rows(segs).contains(k),
    decreases segs.len(),
{
    if k == segs.len() - 1 {
        let m = malformed_rows(segs);
        assert(m[m.len() - 1] == k);
    } else {
        assert(segs.drop_last()[k] == segs[k]);
        lemma_malformed_reported(segs.drop_last(), k);
        let p = malformed_rows(segs.drop_last());
        let j = choose|j: int| 0 <= j < p.len() && p[j] == k;
        if scan_row(segs.last()) is Malformed {
            assert(malformed_rows(segs)[j] == k);
        }
    }
}

/// A malformed row segment is reported and contributes no line: the lines
/// are exactly those of the other segments, in their original order.
pub proof fn lemma_malformed_row_skipped(segs: Seq<Seq<char>>, k: int, sep: char)
    requires
        0 <= k < segs.len(),
        scan_row(segs[k]) is Malformed,
    ensures
        malformed_rows(segs).contains(k),
        emitted_lines(segs, sep) == emitted_lines(segs.remove(k), sep),
{
    lemma_malformed_reported(segs, k);
    let a = segs.take(k);
    let b = segs.skip(k + 1);
    let x = seq![segs[k]];
    assert(segs =~= a + x + b);
    assert(segs.remove(k) =~= a + b);
    lemma_emitted_lines_append(a + x, b, sep);
    lemma_emitted_lines_append(a, x, sep);
    lemma_emitted_lines_append(a, b, sep);
    assert(x.drop_last() =~= Seq::<Seq<char>>::empty());
    assert(emitted_lines(x.drop_last(), sep) =~= Seq::<Seq<char>>::empty());
    assert(emitted_lines(x, sep) =~= Seq::<Seq<char>>::empty());
    assert(emitted_lines(a, sep) + Seq::<Seq<char>>::empty() =~= emitted_lines(a, sep));
}

/// In a document, a malformed row segment is reported by its index, and the
/// output lines are those of all other row segments, in document order.
pub proof fn lemma_malformed_row_in_document(t: Seq<char>, k: int, sep: char)
    requires
        table_region(t) is Ok,
        0 <= k < row_segments(table_region(t)->Ok_0).len(),
        scan_row(row_segments(table_region(t)->Ok_0)[k]) is Malformed,
    ensures
        parsed(t, sep) is Ok,
        parsed(t, sep)->Ok_0.1.contains(k),
        parsed(t, sep)->Ok_0.0 == emitted_lines(
            row_segments(table_region(t)->Ok_0).remove(k),
            sep,
        ),
{
    lemma_malformed_row_skipped(row_segments(table_region(t)->Ok_0), k, sep);
}

} // verus!
