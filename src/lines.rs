//! Splitting plain text into the lines that the generator takes.
use vstd::prelude::*;
use crate::generate::{lemma_split_fields_nonempty, lines_view, split_fields};
use crate::text::{chars_of, push_char};

verus! {

/// `l` without one trailing carriage return.
pub open spec fn strip_cr(l: Seq<char>) -> Seq<char> {
    if l.len() > 0 && l.last() == '\r' {
        l.drop_last()
    } else {
        l
    }
}

/// The pieces of `t` cut at every line feed, each without a trailing `\r`.
pub open spec fn stripped_pieces(pieces: Seq<Seq<char>>) -> Seq<Seq<char>> {
    pieces.map_values(|l: Seq<char>| strip_cr(l))
}

/// The lines of `t`: cut at every `\n`, each without a trailing `\r`. A final
/// `\n` ends the last line and starts no new one, so empty text has no line.
pub open spec fn text_lines(t: Seq<char>) -> Seq<Seq<char>> {
    let f = split_fields(t, '\n');
    if f.last().len() == 0 {
        stripped_pieces(f.drop_last())
    } else {
        stripped_pieces(f)
    }
}

/// The characters of `cur` as a string, without a trailing `\r`.
fn line_of(cur: &Vec<char>) -> (r: String)
    ensures
        r@ == strip_cr(cur@),
{
    let end = if cur.len() > 0 && cur[cur.len() - 1] == '\r' {
        cur.len() - 1
    } else {
        cur.len()
    };
    let mut r = String::new();
    let mut k: usize = 0;
    while k < end
        invariant
            k <= end <= cur@.len(),
            r@ == cur@.subrange(0, k as int),
        decreases end - k,
    {
        push_char(&mut r, cur[k]);
        k += 1;
        assert(r@ =~= cur@.subrange(0, k as int));
    }
    assert(cur@.subrange(0, end as int) =~= strip_cr(cur@));
    r
}

/// Splits text into its lines, as the generator's input.
pub fn split_lines(text: &str) -> (r: Vec<String>)
    ensures
        lines_view(r@) == text_lines(text@),
{
    let cs = chars_of(text);
    let mut out: Vec<String> = Vec::new();
    let mut cur: Vec<char> = Vec::new();
    let mut k: usize = 0;
    assert(cs@.subrange(0, 0) =~= Seq::<char>::empty());
    assert(lines_view(out@) =~= stripped_pieces(
        split_fields(cs@.subrange(0, 0), '\n').drop_last(),
    ));
    while k < cs.len()
        invariant
            k <= cs@.len(),
            lines_view(out@) == stripped_pieces(
                split_fields(cs@.subrange(0, k as int), '\n').drop_last(),
            ),
            cur@ == split_fields(cs@.subrange(0, k as int), '\n').last(),
        decreases cs.len() - k,
    {
        let c = cs[k];
        let ghost prev = cs@.subrange(0, k as int);
        let ghost next = cs@.subrange(0, k + 1);
        let ghost f = split_fields(prev, '\n');
        assert(next.drop_last() =~= prev);
        assert(next.last() == c);
        proof {
            lemma_split_fields_nonempty(prev, '\n');
        }
        if c == '\n' {
            let l = line_of(&cur);
            let ghost before = out@;
            out.push(l);
            assert(lines_view(out@) =~= lines_view(before).push(l@));
            assert(stripped_pieces(f.drop_last().push(f.last())) =~= stripped_pieces(
                f.drop_last(),
            ).push(strip_cr(f.last())));
            cur = Vec::new();
            assert(split_fields(next, '\n') == f.push(Seq::<char>::empty()));
            assert(f.push(Seq::<char>::empty()).drop_last() =~= f);
            assert(f =~= f.drop_last().push(f.last()));
            assert(lines_view(out@) =~= stripped_pieces(f));
            assert(cur@ =~= Seq::<char>::empty());
        } else {
            cur.push(c);
            let ghost g = f.update(f.len() - 1, f.last().push(c));
            assert(split_fields(next, '\n') == g);
            assert(g.drop_last() =~= f.drop_last());
        }
        k += 1;
    }
    assert(cs@.subrange(0, cs@.len() as int) =~= cs@);
    let ghost f = split_fields(text@, '\n');
    proof {
        lemma_split_fields_nonempty(text@, '\n');
    }
    if cur.len() > 0 {
        let l = line_of(&cur);
        let ghost before = out@;
        out.push(l);
        assert(lines_view(out@) =~= lines_view(before).push(l@));
        assert(stripped_pieces(f.drop_last().push(f.last())) =~= stripped_pieces(
            f.drop_last(),
        ).push(strip_cr(f.last())));
        assert(f =~= f.drop_last().push(f.last()));
        assert(lines_view(out@) =~= stripped_pieces(f));
    }
    out
}

} // verus!
