//! The generator: records to table markup.
use vstd::prelude::*;
use crate::markup::{cell_close, row_close, table_close};
use crate::text::{chars_of, push_char, push_chars};

verus! {

/// The fields of `line`: it is cut at every occurrence of `sep`, so adjacent
/// separators give empty fields and a line always has at least one field.
pub open spec fn split_fields(line: Seq<char>, sep: char) -> Seq<Seq<char>>
    decreases line.len(),
{
    if line.len() == 0 {
        seq![Seq::<char>::empty()]
    } else {
        let p = split_fields(line.drop_last(), sep);
        if line.last() == sep {
            p.push(Seq::<char>::empty())
        } else {
            p.update(p.len() - 1, p.last().push(line.last()))
        }
    }
}

/// `<td>`: the cell-start marker as the generator writes it.
pub open spec fn cell_start() -> Seq<char> {
    seq!['<', 't', 'd', '>']
}

/// `<tr>` and a line break: the row-start marker as the generator writes it.
pub open spec fn row_start() -> Seq<char> {
    seq!['<', 't', 'r', '>', '\n']
}

/// `<table class='rustgen'>` and a line break: the table-start marker as the
/// generator writes it.
pub open spec fn table_start() -> Seq<char> {
    seq!['<', 't', 'a', 'b', 'l', 'e', ' ', 'c', 'l', 'a', 's', 's', '=', '\'', 'r', 'u', 's', 't', 'g', 'e', 'n', '\'', '>', '\n']
}

/// One cell marker pair around the raw text of a field.
pub open spec fn cell_markup(field: Seq<char>) -> Seq<char> {
    cell_start() + field + cell_close()
}

/// The cell marker pairs of `fields`, in order.
pub open spec fn cells_markup(fields: Seq<Seq<char>>) -> Seq<char>
    decreases fields.len(),
{
    if fields.len() == 0 {
        Seq::<char>::empty()
    } else {
        cells_markup(fields.drop_last()) + cell_markup(fields.last())
    }
}

/// The row marker pair of one line, holding one cell per field.
pub open spec fn row_markup(line: Seq<char>, sep: char) -> Seq<char> {
    row_start() + cells_markup(split_fields(line, sep)) + seq!['\n'] + row_close() + seq!['\n']
}

/// The rows of all lines, in order.
pub open spec fn rows_markup(lines: Seq<Seq<char>>, sep: char) -> Seq<char>
    decreases lines.len(),
{
    if lines.len() == 0 {
        Seq::<char>::empty()
    } else {
        rows_markup(lines.drop_last(), sep) + row_markup(lines.last(), sep)
    }
}

/// The whole document that the generator writes for `lines`.
pub open spec fn generated(lines: Seq<Seq<char>>, sep: char) -> Seq<char> {
    table_start() + rows_markup(lines, sep) + table_close() + seq!['\n']
}

/// The character sequences of a list of strings.
pub open spec fn lines_view(v: Seq<String>) -> Seq<Seq<char>> {
    v.map_values(|s: String| s@)
}

/// Appends the row markup of `line` to `out`.
fn push_row(out: &mut String, line: &str, sep: char)
    ensures
        final(out)@ == old(out)@ + row_markup(line@, sep),
{
    let cs = chars_of(line);
    push_chars(out, &vec!['<', 't', 'r', '>', '\n', '<', 't', 'd', '>']);
    let ghost base = old(out)@ + row_start();
    let ghost p0 = cs@.subrange(0, 0);
    assert(p0 == Seq::<char>::empty());
    assert(split_fields(p0, sep).drop_last() == Seq::<Seq<char>>::empty());
    assert(out@ == base + cells_markup(split_fields(p0, sep).drop_last()) + cell_start()
        + split_fields(p0, sep).last());
    let mut k: usize = 0;
    while k < cs.len()
        invariant
            k <= cs@.len(),
            out@ == base + cells_markup(split_fields(cs@.subrange(0, k as int), sep).drop_last())
                + cell_start() + split_fields(cs@.subrange(0, k as int), sep).last(),
        decreases cs.len() - k,
    {
        let c = cs[k];
        let ghost prev = cs@.subrange(0, k as int);
        let ghost next = cs@.subrange(0, k + 1);
        assert(next.drop_last() =~= prev);
        assert(next.last() == c);
        let ghost sp = split_fields(prev, sep);
        proof {
            lemma_split_fields_nonempty(prev, sep);
        }
        if c == sep {
            push_chars(out, &vec!['<', '/', 't', 'd', '>', '<', 't', 'd', '>']);
            assert(split_fields(next, sep) == sp.push(Seq::<char>::empty()));
            assert(sp.push(Seq::<char>::empty()).drop_last() =~= sp);
            assert(cells_markup(sp) == cells_markup(sp.drop_last()) + cell_markup(sp.last()));
            assert(out@ == base + cells_markup(split_fields(next, sep).drop_last()) + cell_start()
                + split_fields(next, sep).last());
        } else {
            push_char(out, c);
            let ghost sn = sp.update(sp.len() - 1, sp.last().push(c));
            assert(split_fields(next, sep) == sn);
            assert(sn.drop_last() =~= sp.drop_last());
            assert(out@ == base + cells_markup(split_fields(next, sep).drop_last()) + cell_start()
                + split_fields(next, sep).last());
        }
        k += 1;
    }
    assert(cs@.subrange(0, cs@.len() as int) == cs@);
    let ghost sp = split_fields(line@, sep);
    push_chars(out, &vec!['<', '/', 't', 'd', '>', '\n', '<', '/', 't', 'r', '>', '\n']);
    assert(sp.len() > 0) by {
        lemma_split_fields_nonempty(line@, sep);
    }
    assert(cells_markup(sp) == cells_markup(sp.drop_last()) + cell_markup(sp.last()));
    assert(out@ == old(out)@ + row_markup(line@, sep));
}

/// A line always has at least one field.
pub proof fn lemma_split_fields_nonempty(line: Seq<char>, sep: char)
    ensures
        split_fields(line, sep).len() >= 1,
    decreases line.len(),
{
    if line.len() > 0 {
        lemma_split_fields_nonempty(line.drop_last(), sep);
    }
}

/// Writes the table markup of `lines`: the table-start marker, then for each
/// line a row marker pair holding one cell marker pair per field (cut at every
/// `sep`, raw text carried verbatim), then the table-end marker.
pub fn generate(lines: &Vec<String>, sep: char) -> (r: String)
    ensures
        r@ == generated(lines_view(lines@), sep),
{
    let mut out = String::new();
    push_chars(&mut out, &vec!['<', 't', 'a', 'b', 'l', 'e', ' ', 'c', 'l', 'a', 's', 's', '=', '\'', 'r', 'u', 's', 't', 'g', 'e', 'n', '\'', '>', '\n']);
    let ghost lv = lines_view(lines@);
    assert(lv.take(0) == Seq::<Seq<char>>::empty());
    let mut k: usize = 0;
    while k < lines.len()
        invariant
            k <= lines@.len(),
            lv == lines_view(lines@),
            out@ == table_start() + rows_markup(lv.take(k as int), sep),
        decreases lines.len() - k,
    {
        push_row(&mut out, lines[k].as_str(), sep);
        assert(lv.take(k + 1).drop_last() == lv.take(k as int));
        assert(lv.take(k + 1).last() == lines@[k as int]@);
        k += 1;
    }
    assert(lv.take(lines@.len() as int) == lv);
    push_chars(&mut out, &vec!['<', '/', 't', 'a', 'b', 'l', 'e', '>', '\n']);
    out
}

} // verus!
