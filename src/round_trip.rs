//! Parsing generated markup gives back the lines it was generated from.
use vstd::prelude::*;
use crate::generate::{
    cell_markup, cell_start, cells_markup, generated, lemma_split_fields_nonempty, row_markup,
    row_start, rows_markup, split_fields, table_start,
};
use crate::markup::{
    cell_close, cell_open, find_from, lemma_find_from, matches_at, row_close, table_close,
    table_open,
};
use crate::parse::{
    emitted_lines, is_break, join, malformed_rows, parsed, scan_cells, scan_row, segments_from,
    strip_breaks, table_region, RowScan, StructuralFormatError,
};

verus! {

/// Text that markup carries through unchanged: no `<` and no line break.
pub open spec fn plain(s: Seq<char>) -> bool {
    forall|i: int| 0 <= i < s.len() ==> #[trigger] s[i] != '<' && !is_break(s[i])
}

spec fn no_breaks(s: Seq<char>) -> bool {
    forall|i: int| 0 <= i < s.len() ==> !is_break(#[trigger] s[i])
}

/// Every `<` in `s` is followed by `t`, or by `/`, any character and `d`
/// (or `r`, where `rows` holds).
spec fn tags_ok(s: Seq<char>, rows: bool) -> bool {
    forall|m: int|
        0 <= m < s.len() && #[trigger] s[m] == '<' ==> (m + 1 < s.len() && s[m + 1] == 't') || (m
            + 3 < s.len() && s[m + 1] == '/' && (s[m + 3] == 'd' || (rows && s[m + 3] == 'r')))
}

/// A generated row once line breaks are gone and its row-end marker cut off.
spec fn row_segment(line: Seq<char>, sep: char) -> Seq<char> {
    seq!['<', 't', 'r', '>'] + cells_markup(split_fields(line, sep))
}

spec fn stripped_rows(lines: Seq<Seq<char>>, sep: char) -> Seq<char>
    decreases lines.len(),
{
    if lines.len() == 0 {
        Seq::empty()
    } else {
        stripped_rows(lines.drop_last(), sep) + row_segment(lines.last(), sep) + row_close()
    }
}

proof fn lemma_find_at(t: Seq<char>, pat: Seq<char>, i: int, j: int)
    requires
        0 <= i <= j,
        matches_at(t, pat, j),
        forall|k: int| i <= k < j ==> !matches_at(t, pat, k),
    ensures
        find_from(t, pat, i) == Some(j),
    decreases j - i,
{
    if i < j {
        lemma_find_at(t, pat, i + 1, j);
    }
}

proof fn lemma_matches_shift(a: Seq<char>, b: Seq<char>, pat: Seq<char>, i: int)
    requires
        0 <= i,
    ensures
        matches_at(a + b, pat, a.len() + i) == matches_at(b, pat, i),
{
    if i + pat.len() <= b.len() {
        assert((a + b).subrange(a.len() + i, a.len() + i + pat.len()) =~= b.subrange(
            i,
            i + pat.len(),
        ));
    }
}

proof fn lemma_find_shift(a: Seq<char>, b: Seq<char>, pat: Seq<char>, i: int)
    requires
        0 <= i,
    ensures
        match find_from(b, pat, i) {
            Some(j) => find_from(a + b, pat, a.len() + i) == Some(a.len() + j),
            None => find_from(a + b, pat, a.len() + i) is None,
        },
    decreases b.len() + 1 - i,
{
    lemma_matches_shift(a, b, pat, i);
    if i + pat.len() <= b.len() && !matches_at(b, pat, i) {
        lemma_find_shift(a, b, pat, i + 1);
        assert(a.len() + (i + 1) == a.len() + i + 1);
    }
}

proof fn lemma_segments_shift(a: Seq<char>, b: Seq<char>, i: int)
    requires
        0 <= i <= b.len(),
    ensures
        segments_from(a + b, a.len() + i) == segments_from(b, i),
    decreases b.len() + 1 - i,
{
    lemma_find_shift(a, b, row_close(), i);
    lemma_find_from(b, row_close(), i);
    match find_from(b, row_close(), i) {
        None => {
            assert((a + b).subrange(a.len() + i, (a + b).len() as int) =~= b.subrange(
                i,
                b.len() as int,
            ));
        },
        Some(j) => {
            assert((a + b).subrange(a.len() + i, a.len() + j) =~= b.subrange(i, j));
            lemma_segments_shift(a, b, j + 5);
            assert(a.len() + j + 5 == a.len() + (j + 5));
        },
    }
}

proof fn lemma_scan_cells_shift(a: Seq<char>, b: Seq<char>, i: int)
    requires
        0 <= i <= b.len(),
    ensures
        scan_cells(a + b, a.len() + i) == scan_cells(b, i),
    decreases b.len() + 1 - i,
{
    lemma_find_shift(a, b, cell_open(), i);
    lemma_find_from(b, cell_open(), i);
    if let Some(p) = find_from(b, cell_open(), i) {
        lemma_find_shift(a, b, seq!['>'], p + 3);
        lemma_find_from(b, seq!['>'], p + 3);
        assert(a.len() + p + 3 == a.len() + (p + 3));
        if let Some(g) = find_from(b, seq!['>'], p + 3) {
            lemma_find_shift(a, b, seq!['<'], g + 1);
            lemma_find_from(b, seq!['<'], g + 1);
            assert(a.len() + g + 1 == a.len() + (g + 1));
            if let Some(e) = find_from(b, seq!['<'], g + 1) {
                lemma_matches_shift(a, b, cell_close(), e);
                if matches_at(b, cell_close(), e) {
                    lemma_scan_cells_shift(a, b, e + 5);
                    assert(a.len() + e + 5 == a.len() + (e + 5));
                    assert((a + b).subrange(a.len() + g + 1, a.len() + e) =~= b.subrange(g + 1, e));
                }
            }
        }
    }
}

proof fn lemma_tags_concat(a: Seq<char>, b: Seq<char>, rows: bool)
    requires
        tags_ok(a, rows),
        tags_ok(b, rows),
    ensures
        tags_ok(a + b, rows),
{
    let s = a + b;
    assert forall|m: int| 0 <= m < s.len() && #[trigger] s[m] == '<' implies (m + 1 < s.len() && s[m
        + 1] == 't') || (m + 3 < s.len() && s[m + 1] == '/' && (s[m + 3] == 'd' || (rows && s[m
        + 3] == 'r'))) by {
        if m < a.len() {
            assert(a[m] == '<');
        } else {
            assert(b[m - a.len()] == '<');
        }
    }
}

proof fn lemma_no_breaks_concat(a: Seq<char>, b: Seq<char>)
    requires
        no_breaks(a),
        no_breaks(b),
    ensures
        no_breaks(a + b),
{
    let s = a + b;
    assert forall|i: int| 0 <= i < s.len() implies !is_break(#[trigger] s[i]) by {
        if i < a.len() {
            assert(s[i] == a[i]);
        } else {
            assert(s[i] == b[i - a.len()]);
        }
    }
}

/// The marker pieces of generated markup.
proof fn lemma_marker_facts()
    ensures
        tags_ok(cell_start(), false),
        no_breaks(cell_start()),
        tags_ok(cell_close(), false),
        no_breaks(cell_close()),
        tags_ok(seq!['<', 't', 'r', '>'], false),
        no_breaks(seq!['<', 't', 'r', '>']),
        tags_ok(row_close(), true),
        no_breaks(row_close()),
        tags_ok(seq!['\n'], false),
        tags_ok(row_start(), true),
{
    let s = cell_start();
    assert forall|m: int| 0 <= m < s.len() && #[trigger] s[m] == '<' implies m + 1 < s.len()
        && s[m + 1] == 't' by {
        if m != 0 {
            assert(s[m] != '<');
        }
    }
    assert forall|i: int| 0 <= i < s.len() implies !is_break(#[trigger] s[i]) by {
        assert(i == 0 || i == 1 || i == 2 || i == 3);
    }
    let s = cell_close();
    assert forall|m: int| 0 <= m < s.len() && #[trigger] s[m] == '<' implies m + 3 < s.len()
        && s[m + 1] == '/' && s[m + 3] == 'd' by {
        if m != 0 {
            assert(s[m] != '<');
        }
    }
    assert forall|i: int| 0 <= i < s.len() implies !is_break(#[trigger] s[i]) by {
        assert(i == 0 || i == 1 || i == 2 || i == 3 || i == 4);
    }
    let s = seq!['<', 't', 'r', '>'];
    assert forall|m: int| 0 <= m < s.len() && #[trigger] s[m] == '<' implies m + 1 < s.len()
        && s[m + 1] == 't' by {
        if m != 0 {
            assert(s[m] != '<');
        }
    }
    assert forall|i: int| 0 <= i < s.len() implies !is_break(#[trigger] s[i]) by {
        assert(i == 0 || i == 1 || i == 2 || i == 3);
    }
    let s = row_close();
    assert forall|m: int| 0 <= m < s.len() && #[trigger] s[m] == '<' implies m + 3 < s.len()
        && s[m + 1] == '/' && s[m + 3] == 'r' by {
        if m != 0 {
            assert(s[m] != '<');
        }
    }
    assert forall|i: int| 0 <= i < s.len() implies !is_break(#[trigger] s[i]) by {
        assert(i == 0 || i == 1 || i == 2 || i == 3 || i == 4);
    }
    let s = row_start();
    assert forall|m: int| 0 <= m < s.len() && #[trigger] s[m] == '<' implies m + 1 < s.len()
        && s[m + 1] == 't' by {
        if m != 0 {
            assert(s[m] != '<');
        }
    }
}

proof fn lemma_plain_facts(s: Seq<char>)
    requires
        plain(s),
    ensures
        tags_ok(s, false),
        no_breaks(s),
{
}

proof fn lemma_tags_exclude(t: Seq<char>, lo: int, hi: int, pat: Seq<char>, rows: bool)
    requires
        0 <= lo <= hi <= t.len(),
        tags_ok(t.subrange(lo, hi), rows),
        pat.len() >= 4,
        pat[0] == '<',
        pat[1] == '/',
        pat[3] != 'd',
        !(rows && pat[3] == 'r'),
    ensures
        forall|k: int| lo <= k < hi ==> !matches_at(t, pat, k),
{
    let s = t.subrange(lo, hi);
    assert forall|k: int| lo <= k < hi implies !matches_at(t, pat, k) by {
        if matches_at(t, pat, k) {
            let w = t.subrange(k, k + pat.len());
            assert(w[0] == t[k] && w[1] == t[k + 1] && w[3] == t[k + 3]);
            assert(s[k - lo] == '<');
            if k - lo + 1 < s.len() {
                assert(s[k - lo + 1] == t[k + 1]);
            }
            if k - lo + 3 < s.len() {
                assert(s[k - lo + 3] == t[k + 3]);
            }
        }
    }
}

proof fn lemma_cells_markup_append(a: Seq<Seq<char>>, b: Seq<Seq<char>>)
    ensures
        cells_markup(a + b) == cells_markup(a) + cells_markup(b),
    decreases b.len(),
{
    if b.len() == 0 {
        assert(a + b =~= a);
        assert(cells_markup(a) + cells_markup(b) =~= cells_markup(a));
    } else {
        lemma_cells_markup_append(a, b.drop_last());
        assert((a + b).drop_last() =~= a + b.drop_last());
        assert(cells_markup(a + b) =~= cells_markup(a) + cells_markup(b));
    }
}

proof fn lemma_stripped_rows_append(a: Seq<Seq<char>>, b: Seq<Seq<char>>, sep: char)
    ensures
        stripped_rows(a + b, sep) == stripped_rows(a, sep) + stripped_rows(b, sep),
    decreases b.len(),
{
    if b.len() == 0 {
        assert(a + b =~= a);
        assert(stripped_rows(a, sep) + stripped_rows(b, sep) =~= stripped_rows(a, sep));
    } else {
        lemma_stripped_rows_append(a, b.drop_last(), sep);
        assert((a + b).drop_last() =~= a + b.drop_last());
        assert(stripped_rows(a + b, sep) =~= stripped_rows(a, sep) + stripped_rows(b, sep));
    }
}

proof fn lemma_strip_append(a: Seq<char>, b: Seq<char>)
    ensures
        strip_breaks(a + b) == strip_breaks(a) + strip_breaks(b),
    decreases b.len(),
{
    if b.len() == 0 {
        assert(a + b =~= a);
        assert(strip_breaks(a) + strip_breaks(b) =~= strip_breaks(a));
    } else {
        lemma_strip_append(a, b.drop_last());
        assert((a + b).drop_last() =~= a + b.drop_last());
        assert(strip_breaks(a + b) =~= strip_breaks(a) + strip_breaks(b));
    }
}

proof fn lemma_strip_unbroken(s: Seq<char>)
    requires
        no_breaks(s),
    ensures
        strip_breaks(s) == s,
    decreases s.len(),
{
    if s.len() > 0 {
        let d = s.drop_last();
        assert forall|i: int| 0 <= i < d.len() implies !is_break(#[trigger] d[i]) by {
            assert(d[i] == s[i]);
        }
        lemma_strip_unbroken(d);
        assert(d.push(s.last()) =~= s);
    }
}

proof fn lemma_strip_newline()
    ensures
        strip_breaks(seq!['\n']) == Seq::<char>::empty(),
{
    let s = seq!['\n'];
    assert(s.drop_last() =~= Seq::<char>::empty());
    assert(strip_breaks(s.drop_last()) =~= Seq::<char>::empty());
}

proof fn lemma_split_plain(line: Seq<char>, sep: char)
    requires
        plain(line),
    ensures
        forall|j: int|
            0 <= j < split_fields(line, sep).len() ==> plain(#[trigger] split_fields(line, sep)[j]),
    decreases line.len(),
{
    if line.len() > 0 {
        let d = line.drop_last();
        assert forall|i: int| 0 <= i < d.len() implies #[trigger] d[i] != '<' && !is_break(d[i]) by {
            assert(d[i] == line[i]);
        }
        lemma_split_plain(d, sep);
        lemma_split_fields_nonempty(d, sep);
        let p = split_fields(d, sep);
        let c = line.last();
        assert(c == line[line.len() - 1]);
        if c != sep {
            let x = p.last().push(c);
            assert(plain(p[p.len() - 1]));
            assert forall|i: int| 0 <= i < x.len() implies #[trigger] x[i] != '<' && !is_break(x[i]) by {
                if i < x.len() - 1 {
                    assert(x[i] == p.last()[i]);
                }
            }
            let q = split_fields(line, sep);
            assert forall|j: int| 0 <= j < q.len() implies plain(#[trigger] q[j]) by {
                if j < p.len() - 1 {
                    assert(q[j] == p[j]);
                }
            }
        } else {
            let q = split_fields(line, sep);
            assert forall|j: int| 0 <= j < q.len() implies plain(#[trigger] q[j]) by {
                if j < p.len() {
                    assert(q[j] == p[j]);
                }
            }
        }
    }
}

proof fn lemma_cells_facts(fields: Seq<Seq<char>>)
    requires
        forall|j: int| 0 <= j < fields.len() ==> plain(#[trigger] fields[j]),
    ensures
        tags_ok(cells_markup(fields), false),
        no_breaks(cells_markup(fields)),
    decreases fields.len(),
{
    if fields.len() > 0 {
        let d = fields.drop_last();
        assert forall|j: int| 0 <= j < d.len() implies plain(#[trigger] d[j]) by {
            assert(d[j] == fields[j]);
        }
        lemma_cells_facts(d);
        let f = fields.last();
        assert(plain(fields[fields.len() - 1]));
        lemma_plain_facts(f);
        lemma_marker_facts();
        lemma_tags_concat(cell_start(), f, false);
        lemma_tags_concat(cell_start() + f, cell_close(), false);
        lemma_no_breaks_concat(cell_start(), f);
        lemma_no_breaks_concat(cell_start() + f, cell_close());
        lemma_tags_concat(cells_markup(d), cell_markup(f), false);
        lemma_no_breaks_concat(cells_markup(d), cell_markup(f));
    }
}

/// One generated cell in front of `b` reads as its field, then what `b` reads as.
#[verifier::rlimit(50)]
proof fn lemma_scan_one_cell(f: Seq<char>, b: Seq<char>)
    requires
        plain(f),
    ensures
        scan_cells(cell_markup(f) + b, 0) == prepend_field(f, scan_cells(b, 0)),
{
    let c = cell_markup(f);
    let t = c + b;
    let n = f.len() as int;
    assert(t.subrange(0, 3) =~= cell_open());
    lemma_find_at(t, cell_open(), 0, 0);
    assert(t.subrange(3, 4) =~= seq!['>']);
    lemma_find_at(t, seq!['>'], 3, 3);
    assert(t.subrange(4 + n, 5 + n) =~= seq!['<']);
    assert forall|k: int| 4 <= k < 4 + n implies !matches_at(t, seq!['<'], k) by {
        assert(t[k] == f[k - 4]);
        if matches_at(t, seq!['<'], k) {
            assert(t.subrange(k, k + 1)[0] == t[k]);
        }
    }
    lemma_find_at(t, seq!['<'], 4, 4 + n);
    assert(t.subrange(4 + n, 9 + n) =~= cell_close());
    assert(t.subrange(4, 4 + n) =~= f);
    lemma_scan_cells_shift(c, b, 0);
}

spec fn prepend_field(f: Seq<char>, o: Option<Seq<Seq<char>>>) -> Option<Seq<Seq<char>>> {
    match o {
        Some(r) => Some(seq![f] + r),
        None => None,
    }
}

proof fn lemma_cells_markup_front(fields: Seq<Seq<char>>)
    requires
        fields.len() > 0,
    ensures
        cells_markup(fields) == cell_markup(fields[0]) + cells_markup(fields.skip(1)),
{
    let f = fields[0];
    let rest = fields.skip(1);
    assert(fields =~= seq![f] + rest);
    lemma_cells_markup_append(seq![f], rest);
    assert(seq![f].drop_last() =~= Seq::<Seq<char>>::empty());
    assert(cells_markup(seq![f].drop_last()) =~= Seq::<char>::empty());
    assert(cells_markup(seq![f]) =~= cell_markup(f));
}

proof fn lemma_scan_cells_fields(fields: Seq<Seq<char>>)
    requires
        forall|j: int| 0 <= j < fields.len() ==> plain(#[trigger] fields[j]),
    ensures
        scan_cells(cells_markup(fields), 0) == Some(fields),
    decreases fields.len(),
{
    if fields.len() == 0 {
        assert(cells_markup(fields) =~= Seq::<char>::empty());
        assert(find_from(cells_markup(fields), cell_open(), 0) is None);
        assert(fields =~= Seq::<Seq<char>>::empty());
    } else {
        let f = fields[0];
        let rest = fields.skip(1);
        assert forall|j: int| 0 <= j < rest.len() implies plain(#[trigger] rest[j]) by {
            assert(rest[j] == fields[j + 1]);
        }
        lemma_scan_cells_fields(rest);
        assert(plain(fields[0]));
        lemma_cells_markup_front(fields);
        lemma_scan_one_cell(f, cells_markup(rest));
        assert(seq![f] + rest =~= fields);
    }
}

/// The first cell-start marker of a generated row follows its row-start marker.
proof fn lemma_row_first_cell(fields: Seq<Seq<char>>)
    requires
        fields.len() > 0,
    ensures
        find_from(seq!['<', 't', 'r', '>'] + cells_markup(fields), cell_open(), 0) == Some(4int),
        find_from(seq!['<', 't', 'r', '>'] + cells_markup(fields), cell_open(), 4) == Some(4int),
{
    let a = seq!['<', 't', 'r', '>'];
    let s = a + cells_markup(fields);
    lemma_cells_markup_front(fields);
    assert(s.subrange(4, 7) =~= cell_open());
    assert forall|k: int| 0 <= k < 4 implies !matches_at(s, cell_open(), k) by {
        if matches_at(s, cell_open(), k) {
            let w = s.subrange(k, k + 3);
            assert(w[0] == s[k] && w[2] == s[k + 2]);
        }
    }
    lemma_find_at(s, cell_open(), 0, 4);
    lemma_find_at(s, cell_open(), 4, 4);
}

/// The cell scan depends on its start only through the next cell-start marker.
proof fn lemma_scan_cells_same_next(s: Seq<char>, i: int, j: int)
    requires
        0 <= i <= s.len(),
        0 <= j <= s.len(),
        find_from(s, cell_open(), i) == find_from(s, cell_open(), j),
    ensures
        scan_cells(s, i) == scan_cells(s, j),
{
}

#[verifier::rlimit(40)]
proof fn lemma_row_scan(line: Seq<char>, sep: char)
    requires
        plain(line),
    ensures
        scan_row(row_segment(line, sep)) == RowScan::Fields(split_fields(line, sep)),
{
    let fields = split_fields(line, sep);
    lemma_split_plain(line, sep);
    lemma_split_fields_nonempty(line, sep);
    lemma_scan_cells_fields(fields);
    let a = seq!['<', 't', 'r', '>'];
    let cm = cells_markup(fields);
    lemma_scan_cells_shift(a, cm, 0);
    lemma_row_first_cell(fields);
    lemma_scan_cells_same_next(a + cm, 0, 4);
}

proof fn lemma_strip_rows(lines: Seq<Seq<char>>, sep: char)
    requires
        forall|i: int| 0 <= i < lines.len() ==> plain(#[trigger] lines[i]),
    ensures
        strip_breaks(rows_markup(lines, sep)) == stripped_rows(lines, sep),
        tags_ok(rows_markup(lines, sep), true),
    decreases lines.len(),
{
    if lines.len() == 0 {
        let r = rows_markup(lines, sep);
        assert(r =~= Seq::<char>::empty());
        assert(strip_breaks(r) =~= Seq::<char>::empty());
    } else {
        let d = lines.drop_last();
        assert forall|i: int| 0 <= i < d.len() implies plain(#[trigger] d[i]) by {
            assert(d[i] == lines[i]);
        }
        lemma_strip_rows(d, sep);
        let l = lines.last();
        assert(plain(lines[lines.len() - 1]));
        lemma_split_plain(l, sep);
        let cm = cells_markup(split_fields(l, sep));
        lemma_cells_facts(split_fields(l, sep));
        lemma_marker_facts();
        let a = seq!['<', 't', 'r', '>'];
        let nl = seq!['\n'];
        assert(row_start() =~= a + nl);
        lemma_strip_newline();
        lemma_strip_unbroken(a);
        lemma_strip_unbroken(cm);
        lemma_strip_unbroken(row_close());
        lemma_strip_append(a, nl);
        lemma_strip_append(row_start(), cm);
        lemma_strip_append(row_start() + cm, nl);
        lemma_strip_append(row_start() + cm + nl, row_close());
        lemma_strip_append(row_start() + cm + nl + row_close(), nl);
        lemma_strip_append(rows_markup(d, sep), row_markup(l, sep));
        assert(strip_breaks(row_start()) =~= a);
        assert(strip_breaks(row_markup(l, sep)) =~= row_segment(l, sep) + row_close());
        lemma_tags_concat(row_start(), cm, true);
        lemma_tags_concat(row_start() + cm, nl, true);
        lemma_tags_concat(row_start() + cm + nl, row_close(), true);
        lemma_tags_concat(row_start() + cm + nl + row_close(), nl, true);
        lemma_tags_concat(rows_markup(d, sep), row_markup(l, sep), true);
        assert(strip_breaks(rows_markup(lines, sep)) =~= stripped_rows(lines, sep));
    }
}

spec fn row_segments_of(lines: Seq<Seq<char>>, sep: char) -> Seq<Seq<char>> {
    lines.map_values(|l: Seq<char>| row_segment(l, sep))
}

proof fn lemma_segments_of_rows(lines: Seq<Seq<char>>, sep: char)
    requires
        forall|i: int| 0 <= i < lines.len() ==> plain(#[trigger] lines[i]),
    ensures
        segments_from(stripped_rows(lines, sep), 0) == row_segments_of(lines, sep).push(
            Seq::<char>::empty(),
        ),
    decreases lines.len(),
{
    if lines.len() == 0 {
        let t = stripped_rows(lines, sep);
        assert(t =~= Seq::<char>::empty());
        assert(t.subrange(0, 0) =~= Seq::<char>::empty());
        assert(row_segments_of(lines, sep).push(Seq::<char>::empty()) =~= seq![
            Seq::<char>::empty(),
        ]);
    } else {
        let l = lines[0];
        let rest = lines.skip(1);
        assert(lines =~= seq![l] + rest);
        assert forall|i: int| 0 <= i < rest.len() implies plain(#[trigger] rest[i]) by {
            assert(rest[i] == lines[i + 1]);
        }
        lemma_segments_of_rows(rest, sep);
        lemma_stripped_rows_append(seq![l], rest, sep);
        assert(seq![l].drop_last() =~= Seq::<Seq<char>>::empty());
        assert(stripped_rows(seq![l].drop_last(), sep) =~= Seq::<char>::empty());
        let seg = row_segment(l, sep);
        let a = seg + row_close();
        assert(stripped_rows(seq![l], sep) =~= a);
        let b = stripped_rows(rest, sep);
        let t = a + b;
        assert(plain(lines[0]));
        lemma_split_plain(l, sep);
        lemma_cells_facts(split_fields(l, sep));
        lemma_marker_facts();
        lemma_tags_concat(seq!['<', 't', 'r', '>'], cells_markup(split_fields(l, sep)), false);
        assert(t.subrange(0, seg.len() as int) =~= seg);
        lemma_tags_exclude(t, 0, seg.len() as int, row_close(), false);
        assert(t.subrange(seg.len() as int, seg.len() + 5int) =~= row_close());
        lemma_find_at(t, row_close(), 0, seg.len() as int);
        lemma_segments_shift(a, b, 0);
        assert(row_segments_of(lines, sep).push(Seq::<char>::empty()) =~= seq![seg]
            + row_segments_of(rest, sep).push(Seq::<char>::empty()));
    }
}

proof fn lemma_join_split(line: Seq<char>, sep: char)
    ensures
        join(split_fields(line, sep), sep) == line,
    decreases line.len(),
{
    if line.len() > 0 {
        let d = line.drop_last();
        lemma_join_split(d, sep);
        lemma_split_fields_nonempty(d, sep);
        let p = split_fields(d, sep);
        let c = line.last();
        if c == sep {
            let q = p.push(Seq::<char>::empty());
            assert(q.drop_last() =~= p);
            assert(join(q, sep) =~= line);
        } else {
            let q = p.update(p.len() - 1, p.last().push(c));
            if p.len() == 1 {
                assert(join(p, sep) == p[0]);
                assert(q[0] == p[0].push(c));
                assert(line =~= d.push(c));
                assert(q.len() == 1);
                assert(join(q, sep) == q[0]);
            } else {
                assert(q.drop_last() =~= p.drop_last());
                assert(join(p, sep) == join(p.drop_last(), sep).push(sep) + p.last());
                assert(q.last() == p.last().push(c));
                assert(line =~= d.push(c));
                assert(join(q, sep) =~= line);
            }
        }
    }
}

proof fn lemma_emitted_rows(lines: Seq<Seq<char>>, sep: char)
    requires
        forall|i: int| 0 <= i < lines.len() ==> plain(#[trigger] lines[i]),
    ensures
        emitted_lines(row_segments_of(lines, sep), sep) == lines,
        malformed_rows(row_segments_of(lines, sep)) == Seq::<int>::empty(),
    decreases lines.len(),
{
    let s = row_segments_of(lines, sep);
    if lines.len() == 0 {
        assert(s =~= Seq::<Seq<char>>::empty());
        assert(lines =~= Seq::<Seq<char>>::empty());
    } else {
        let d = lines.drop_last();
        assert forall|i: int| 0 <= i < d.len() implies plain(#[trigger] d[i]) by {
            assert(d[i] == lines[i]);
        }
        lemma_emitted_rows(d, sep);
        assert(s.drop_last() =~= row_segments_of(d, sep));
        assert(plain(lines[lines.len() - 1]));
        lemma_row_scan(lines.last(), sep);
        lemma_split_fields_nonempty(lines.last(), sep);
        lemma_join_split(lines.last(), sep);
        assert(d.push(lines.last()) =~= lines);
    }
}

/// The generator's table-start marker: `<table`, attributes free of `<` and
/// `>`, the closing `>` at index 22, then a line break.
proof fn lemma_table_start_facts()
    ensures
        table_start().len() == 24,
        table_start().subrange(0, 6) == table_open(),
        table_start()[22] == '>',
        table_start()[23] == '\n',
        forall|k: int| 6 <= k < 22 ==> #[trigger] table_start()[k] != '>',
        tags_ok(table_start().subrange(6, 24), true),
{
    let ts = table_start();
    assert(ts.subrange(0, 6) =~= table_open());
    assert forall|k: int| 6 <= k < 24 implies #[trigger] ts[k] != '<' && (k < 22 ==> ts[k] != '>') by {
        assert(k == 6 || k == 7 || k == 8 || k == 9 || k == 10 || k == 11 || k == 12 || k == 13
            || k == 14 || k == 15 || k == 16 || k == 17 || k == 18 || k == 19 || k == 20 || k
            == 21 || k == 22 || k == 23);
    }
    let a = ts.subrange(6, 24);
    assert forall|m: int| 0 <= m < a.len() implies #[trigger] a[m] != '<' by {
        assert(a[m] == ts[m + 6]);
    }
}

/// Parsing the markup generated from lines that hold no `<` and no line
/// break gives back exactly those lines, with no defect, whatever the
/// separator.
pub proof fn lemma_round_trip(lines: Seq<Seq<char>>, sep: char)
    requires
        forall|i: int| 0 <= i < lines.len() ==> plain(#[trigger] lines[i]),
    ensures
        parsed(generated(lines, sep), sep) == Ok::<_, StructuralFormatError>(
            (lines, Seq::<int>::empty()),
        ),
{
    let r = rows_markup(lines, sep);
    let g = generated(lines, sep);
    let nl = seq!['\n'];
    lemma_strip_rows(lines, sep);
    lemma_marker_facts();
    assert(g.subrange(0, 6) =~= table_open());
    lemma_find_at(g, table_open(), 0, 0);
    lemma_table_start_facts();
    let ts = table_start();
    let attrs = ts.subrange(6, 24);
    let te = 24 + r.len() as int;
    assert(g.subrange(te, te + 8) =~= table_close());
    assert(g.subrange(6, te) =~= attrs + r);
    lemma_tags_concat(attrs, r, true);
    lemma_tags_exclude(g, 6, te, table_close(), true);
    lemma_find_at(g, table_close(), 6, te);
    assert(g.subrange(22, 23) =~= seq!['>']);
    assert forall|k: int| 6 <= k < 22 implies !matches_at(g, seq!['>'], k) by {
        assert(g[k] == ts[k]);
        if matches_at(g, seq!['>'], k) {
            assert(g.subrange(k, k + 1)[0] == g[k]);
        }
    }
    lemma_find_at(g, seq!['>'], 6, 22);
    let region = g.subrange(23, te);
    assert(region =~= nl + r);
    assert(table_region(g) == Ok::<_, StructuralFormatError>(region));
    lemma_strip_newline();
    lemma_strip_append(nl, r);
    assert(strip_breaks(region) =~= stripped_rows(lines, sep));
    lemma_segments_of_rows(lines, sep);
    let segs = row_segments_of(lines, sep);
    let all = segs.push(Seq::<char>::empty());
    lemma_emitted_rows(lines, sep);
    assert(all.drop_last() =~= segs);
    assert(find_from(Seq::<char>::empty(), cell_open(), 0) is None);
}

} // verus!
