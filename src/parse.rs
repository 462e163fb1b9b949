//! The tag-tolerant parser: table markup to records.
use vstd::prelude::*;
use crate::generate::lines_view;
use crate::markup::{
    cell_close, cell_open, find_from, find_from_exec, lemma_find_from, matches_at, matches_at_exec,
    row_close, table_close, table_open,
};
use crate::text::{chars_of, push_char, push_chars};

verus! {

/// A mandatory table marker is missing: the whole conversion is aborted.
#[derive(Debug, Clone, Copy, PartialEq, Eq, Structural)]
pub enum StructuralFormatError {
    /// No table-start marker occurs in the text.
    NoTableStart,
    /// The table-start marker is not followed by a table-end marker.
    UnterminatedTable,
}

/// A row segment held a cell-start marker without a matching cell-end
/// marker; that row was skipped.
#[derive(Debug, Clone, Copy, PartialEq, Eq, Structural)]
pub struct CellFormatError {
    /// Index of the offending row segment, counted from zero.
    pub row: usize,
}

/// The records recovered from a table, with the defects of skipped rows.
pub struct ParsedTable {
    /// One line per recovered row, fields joined by the separator.
    pub lines: Vec<String>,
    /// One defect per skipped malformed row, in document order.
    pub warnings: Vec<CellFormatError>,
}

impl ParsedTable {
    /// The output lines as character sequences.
    pub open spec fn lines_view(&self) -> Seq<Seq<char>> {
        lines_view(self.lines@)
    }

    /// The row indices of the reported defects.
    pub open spec fn warning_rows(&self) -> Seq<int> {
        self.warnings@.map_values(|w: CellFormatError| w.row as int)
    }
}

/// What becomes of one row segment.
pub enum RowOutcome {
    /// The segment holds no cell-start marker, or yields no field.
    Skipped,
    /// The fields of the row joined by the separator.
    Line(String),
    /// A cell-start marker has no matching cell-end marker.
    Malformed,
}

/// How one row segment reads, over character sequences.
pub enum RowScan {
    /// No cell-start marker: text between rows.
    Noise,
    /// The texts of the row's cells, in order.
    Fields(Seq<Seq<char>>),
    /// A cell-start marker without a matching cell-end marker.
    Malformed,
}

/// The text up to the first table-end marker after the first table-start
/// marker, from just after the start marker's closing `>`; empty where no `>`
/// comes before the end marker.
pub open spec fn table_region(t: Seq<char>) -> Result<Seq<char>, StructuralFormatError> {
    match find_from(t, table_open(), 0) {
        None => Err(StructuralFormatError::NoTableStart),
        Some(ts) => match find_from(t, table_close(), ts + 6) {
            None => Err(StructuralFormatError::UnterminatedTable),
            Some(te) => match find_from(t, seq!['>'], ts + 6) {
                Some(gt) => if gt < te {
                    Ok(t.subrange(gt + 1, te))
                } else {
                    Ok(Seq::empty())
                },
                None => Ok(Seq::empty()),
            },
        },
    }
}

/// A line-break character.
pub open spec fn is_break(c: char) -> bool {
    c == '\n' || c == '\r'
}

/// `t` without its line-break characters.
pub open spec fn strip_breaks(t: Seq<char>) -> Seq<char>
    decreases t.len(),
{
    if t.len() == 0 {
        t
    } else if is_break(t.last()) {
        strip_breaks(t.drop_last())
    } else {
        strip_breaks(t.drop_last()).push(t.last())
    }
}

/// The pieces of `t` from index `i` on, cut at every row-end marker.
pub open spec fn segments_from(t: Seq<char>, i: int) -> Seq<Seq<char>>
    decreases t.len() + 1 - i,
    via segments_from_decreases
{
    if i < 0 || i > t.len() {
        Seq::empty()
    } else {
        match find_from(t, row_close(), i) {
            None => seq![t.subrange(i, t.len() as int)],
            Some(j) => seq![t.subrange(i, j)] + segments_from(t, j + 5),
        }
    }
}

#[via_fn]
proof fn segments_from_decreases(t: Seq<char>, i: int) {
    if 0 <= i {
        lemma_find_from(t, row_close(), i);
    }
}

/// The cells of a row segment from index `i` on: each is a cell-start marker
/// (attributes up to its `>`), a run of text without `<`, and a cell-end
/// marker. `None` where a cell-start marker has no such completion.
pub open spec fn scan_cells(seg: Seq<char>, i: int) -> Option<Seq<Seq<char>>>
    decreases seg.len() + 1 - i,
    via scan_cells_decreases
{
    if i < 0 || i > seg.len() {
        Some(Seq::empty())
    } else {
        match find_from(seg, cell_open(), i) {
            None => Some(Seq::empty()),
            Some(p) => match find_from(seg, seq!['>'], p + 3) {
                None => None,
                Some(g) => match find_from(seg, seq!['<'], g + 1) {
                    None => None,
                    Some(e) => if matches_at(seg, cell_close(), e) {
                        match scan_cells(seg, e + 5) {
                            None => None,
                            Some(rest) => Some(seq![seg.subrange(g + 1, e)] + rest),
                        }
                    } else {
                        None
                    },
                },
            },
        }
    }
}

#[via_fn]
proof fn scan_cells_decreases(seg: Seq<char>, i: int) {
    if 0 <= i {
        lemma_find_from(seg, cell_open(), i);
        if let Some(p) = find_from(seg, cell_open(), i) {
            lemma_find_from(seg, seq!['>'], p + 3);
            if let Some(g) = find_from(seg, seq!['>'], p + 3) {
                lemma_find_from(seg, seq!['<'], g + 1);
            }
        }
    }
}

/// How a row segment reads: noise without a cell-start marker, else its
/// cells or a defect.
pub open spec fn scan_row(seg: Seq<char>) -> RowScan {
    if find_from(seg, cell_open(), 0) is None {
        RowScan::Noise
    } else {
        match scan_cells(seg, 0) {
            Some(f) => RowScan::Fields(f),
            None => RowScan::Malformed,
        }
    }
}

/// `fields` joined by `sep`, with no trailing separator.
pub open spec fn join(fields: Seq<Seq<char>>, sep: char) -> Seq<char>
    decreases fields.len(),
{
    if fields.len() == 0 {
        Seq::empty()
    } else if fields.len() == 1 {
        fields[0]
    } else {
        join(fields.drop_last(), sep).push(sep) + fields.last()
    }
}

/// One output line for each row segment that yields fields, in order.
pub open spec fn emitted_lines(segs: Seq<Seq<char>>, sep: char) -> Seq<Seq<char>>
    decreases segs.len(),
{
    if segs.len() == 0 {
        Seq::empty()
    } else {
        let prev = emitted_lines(segs.drop_last(), sep);
        match scan_row(segs.last()) {
            RowScan::Fields(f) => if f.len() > 0 {
                prev.push(join(f, sep))
            } else {
                prev
            },
            _ => prev,
        }
    }
}

/// The indices of the malformed row segments, in order.
pub open spec fn malformed_rows(segs: Seq<Seq<char>>) -> Seq<int>
    decreases segs.len(),
{
    if segs.len() == 0 {
        Seq::empty()
    } else if scan_row(segs.last()) is Malformed {
        malformed_rows(segs.drop_last()).push(segs.len() - 1)
    } else {
        malformed_rows(segs.drop_last())
    }
}

/// The row segments of a document's table region.
pub open spec fn row_segments(region: Seq<char>) -> Seq<Seq<char>> {
    segments_from(strip_breaks(region), 0)
}

/// The output lines and the malformed row indices recovered from `t`.
pub open spec fn parsed(t: Seq<char>, sep: char) -> Result<
    (Seq<Seq<char>>, Seq<int>),
    StructuralFormatError,
> {
    match table_region(t) {
        Err(e) => Err(e),
        Ok(region) => Ok(
            (emitted_lines(row_segments(region), sep), malformed_rows(row_segments(region))),
        ),
    }
}

/// `r` is what becomes of a segment that reads as `s`.
pub open spec fn outcome_of(r: RowOutcome, s: RowScan, sep: char) -> bool {
    match s {
        RowScan::Fields(f) => if f.len() > 0 {
            r matches RowOutcome::Line(l) && l@ == join(f, sep)
        } else {
            r is Skipped
        },
        RowScan::Noise => r is Skipped,
        RowScan::Malformed => r is Malformed,
    }
}

/// `c` in front of the cells of `o`, if it has any.
pub open spec fn prepend_cells(c: Seq<Seq<char>>, o: Option<Seq<Seq<char>>>) -> Option<Seq<Seq<char>>> {
    match o {
        None => None,
        Some(r) => Some(c + r),
    }
}

/// The characters of `t` from `a` up to `b`.
fn subvec(t: &Vec<char>, a: usize, b: usize) -> (r: Vec<char>)
    requires
        a <= b <= t@.len(),
    ensures
        r@ == t@.subrange(a as int, b as int),
{
    let mut r: Vec<char> = Vec::new();
    let mut k = a;
    while k < b
        invariant
            a <= k <= b,
            b <= t@.len(),
            r@ == t@.subrange(a as int, k as int),
        decreases b - k,
    {
        r.push(t[k]);
        k += 1;
        assert(r@ =~= t@.subrange(a as int, k as int));
    }
    r
}

/// Reads one row segment: the joined fields of its cells, or the reason it
/// yields no line.
pub fn parse_row(seg: &Vec<char>, sep: char) -> (r: RowOutcome)
    ensures
        outcome_of(r, scan_row(seg@), sep),
{
    let co = vec!['<', 't', 'd'];
    let gt = vec!['>'];
    let lt = vec!['<'];
    let cc = vec!['<', '/', 't', 'd', '>'];
    if find_from_exec(seg, &co, 0).is_none() {
        return RowOutcome::Skipped;
    }
    let mut line = String::new();
    let mut n: usize = 0;
    let ghost mut cells: Seq<Seq<char>> = Seq::empty();
    let mut i: usize = 0;
    let seg_len = seg.len();
    proof {
        if let Some(r) = scan_cells(seg@, 0) {
            assert(cells + r =~= r);
        }
    }
    loop
        invariant
            i <= seg@.len(),
            seg@.len() <= usize::MAX,
            n == cells.len(),
            n <= i,
            line@ == join(cells, sep),
            co@ == cell_open(),
            gt@ == seq!['>'],
            lt@ == seq!['<'],
            cc@ == cell_close(),
            find_from(seg@, cell_open(), 0) is Some,
            scan_cells(seg@, 0) == prepend_cells(cells, scan_cells(seg@, i as int)),
        decreases seg@.len() - i,
    {
        let p = match find_from_exec(seg, &co, i) {
            None => {
                assert(cells + Seq::<Seq<char>>::empty() =~= cells);
                if n == 0 {
                    return RowOutcome::Skipped;
                } else {
                    return RowOutcome::Line(line);
                }
            },
            Some(p) => p,
        };
        proof {
            lemma_find_from(seg@, cell_open(), i as int);
        }
        let g = match find_from_exec(seg, &gt, p + 3) {
            None => {
                return RowOutcome::Malformed;
            },
            Some(g) => g,
        };
        proof {
            lemma_find_from(seg@, seq!['>'], p + 3);
        }
        let e = match find_from_exec(seg, &lt, g + 1) {
            None => {
                return RowOutcome::Malformed;
            },
            Some(e) => e,
        };
        proof {
            lemma_find_from(seg@, seq!['<'], g + 1);
        }
        if !matches_at_exec(seg, &cc, e) {
            return RowOutcome::Malformed;
        }
        let cell = subvec(seg, g + 1, e);
        let ghost next = cells.push(cell@);
        if n > 0 {
            push_char(&mut line, sep);
        }
        push_chars(&mut line, &cell);
        assert(next.drop_last() =~= cells);
        assert(line@ == join(next, sep));
        proof {
            let rest = scan_cells(seg@, e + 5);
            if let Some(r) = rest {
                assert(next + r =~= cells + (seq![cell@] + r));
            }
            cells = next;
        }
        n += 1;
        i = e + 5;
    }
}

/// Bounds of the table region of `t`: after the table-start marker's `>`,
/// up to the first table-end marker.
fn locate_region(t: &Vec<char>) -> (r: Result<(usize, usize), StructuralFormatError>)
    ensures
        match (r, table_region(t@)) {
            (Ok((a, b)), Ok(region)) => a <= b <= t@.len() && region == t@.subrange(
                a as int,
                b as int,
            ),
            (Err(e), Err(e2)) => e == e2,
            _ => false,
        },
{
    let n = t.len();
    let open = vec!['<', 't', 'a', 'b', 'l', 'e'];
    let bracket = vec!['>'];
    let close = vec!['<', '/', 't', 'a', 'b', 'l', 'e', '>'];
    assert(open@ == table_open() && bracket@ == seq!['>'] && close@ == table_close());
    let ts = match find_from_exec(t, &open, 0) {
        None => {
            return Err(StructuralFormatError::NoTableStart);
        },
        Some(ts) => ts,
    };
    proof {
        lemma_find_from(t@, table_open(), 0);
    }
    let te = match find_from_exec(t, &close, ts + 6) {
        None => {
            return Err(StructuralFormatError::UnterminatedTable);
        },
        Some(te) => te,
    };
    proof {
        lemma_find_from(t@, table_close(), ts + 6);
    }
    match find_from_exec(t, &bracket, ts + 6) {
        Some(gt) => {
            if gt < te {
                Ok((gt + 1, te))
            } else {
                assert(t@.subrange(te as int, te as int) =~= Seq::<char>::empty());
                Ok((te, te))
            }
        },
        None => {
            assert(t@.subrange(te as int, te as int) =~= Seq::<char>::empty());
            Ok((te, te))
        },
    }
}

/// The characters of `t` from `a` up to `b`, line breaks removed.
fn strip_breaks_between(t: &Vec<char>, a: usize, b: usize) -> (r: Vec<char>)
    requires
        a <= b <= t@.len(),
    ensures
        r@ == strip_breaks(t@.subrange(a as int, b as int)),
{
    let mut r: Vec<char> = Vec::new();
    let mut k = a;
    assert(t@.subrange(a as int, a as int) =~= Seq::<char>::empty());
    while k < b
        invariant
            a <= k <= b,
            b <= t@.len(),
            r@ == strip_breaks(t@.subrange(a as int, k as int)),
        decreases b - k,
    {
        let c = t[k];
        assert(t@.subrange(a as int, k + 1).drop_last() =~= t@.subrange(a as int, k as int));
        if c != '\n' && c != '\r' {
            r.push(c);
        }
        k += 1;
    }
    r
}

/// Recovers the records of the first table in `text`: one line per row that
/// yields cells, fields joined by `sep`, in document order. A row whose
/// cell-start marker has no matching cell-end marker is skipped and reported
/// in `warnings`; a missing table marker aborts with no output.
pub fn parse(text: &str, sep: char) -> (r: Result<ParsedTable, StructuralFormatError>)
    ensures
        match (r, parsed(text@, sep)) {
            (Ok(p), Ok((lines, rows))) => p.lines_view() == lines && p.warning_rows() == rows,
            (Err(e), Err(e2)) => e == e2,
            _ => false,
        },
{
    let t = chars_of(text);
    let (a, b) = match locate_region(&t) {
        Err(e) => {
            return Err(e);
        },
        Ok(x) => x,
    };
    let body = strip_breaks_between(&t, a, b);
    let ghost segs = segments_from(body@, 0);
    let rc = vec!['<', '/', 't', 'r', '>'];
    let mut lines: Vec<String> = Vec::new();
    let mut warnings: Vec<CellFormatError> = Vec::new();
    let mut i: usize = 0;
    let mut k: usize = 0;
    let mut finished = false;
    let ghost mut done: Seq<Seq<char>> = Seq::empty();
    let body_len = body.len();
    assert(done + segs =~= segs);
    while !finished
        invariant
            i <= body@.len(),
            body_len == body@.len(),
            rc@ == row_close(),
            !finished ==> k == done.len() && k <= i,
            finished ==> segs == done,
            !finished ==> segs == done + segments_from(body@, i as int),
            lines_view(lines@) == emitted_lines(done, sep),
            warnings@.map_values(|w: CellFormatError| w.row as int) == malformed_rows(done),
        decreases body@.len() + 1 - i + (if finished { 0int } else { 1int }),
    {
        let (end, last) = match find_from_exec(&body, &rc, i) {
            Some(j) => (j, false),
            None => (body_len, true),
        };
        proof {
            lemma_find_from(body@, row_close(), i as int);
        }
        let seg = subvec(&body, i, end);
        let ghost next = done.push(seg@);
        assert(next.drop_last() =~= done);
        let outcome = parse_row(&seg, sep);
        match outcome {
            RowOutcome::Line(l) => {
                lines.push(l);
                assert(lines_view(lines@) =~= emitted_lines(next, sep));
            },
            RowOutcome::Malformed => {
                warnings.push(CellFormatError { row: k });
                assert(warnings@.map_values(|w: CellFormatError| w.row as int) =~= malformed_rows(
                    next,
                ));
            },
            RowOutcome::Skipped => {
                assert(lines_view(lines@) =~= emitted_lines(next, sep));
            },
        }
        proof {
            if last {
                assert(next =~= done + segments_from(body@, i as int));
            } else {
                assert(next + segments_from(body@, end + 5) =~= done + segments_from(
                    body@,
                    i as int,
                ));
            }
            done = next;
        }
        if last {
            finished = true;
        } else {
            i = end + 5;
            k += 1;
        }
    }
    Ok(ParsedTable { lines, warnings })
}

} // verus!
