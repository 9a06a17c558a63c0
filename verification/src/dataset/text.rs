//! Comma-separated text, as bytes.

use vstd::prelude::*;

verus! {

/// What separates the fields of a row.
pub const COMMA: u8 = 44;

/// What ends a row.
pub const NEWLINE: u8 = 10;

/// What may stand before the end of a row.
pub const RETURN: u8 = 13;

/// The texts of a list of strings.
pub open spec fn texts(v: Seq<Vec<u8>>) -> Seq<Seq<u8>> {
    v.map_values(|t: Vec<u8>| t@)
}

/// The fields in one row, with a comma between each two.
pub open spec fn joined(fields: Seq<Seq<u8>>) -> Seq<u8>
    decreases fields.len(),
{
    if fields.len() == 0 {
        Seq::empty()
    } else if fields.len() == 1 {
        fields[0]
    } else {
        joined(fields.drop_last()).push(COMMA) + fields.last()
    }
}

/// `s` cut at every `sep`: one piece more than there are separators.
pub open spec fn pieces(s: Seq<u8>, sep: u8) -> Seq<Seq<u8>>
    decreases s.len(),
{
    if s.len() == 0 {
        seq![Seq::empty()]
    } else {
        let before = pieces(s.drop_last(), sep);
        if s.last() == sep {
            before.push(Seq::empty())
        } else {
            before.drop_last().push(before.last().push(s.last()))
        }
    }
}

/// A terminated line without the carriage return that may stand at its end.
pub open spec fn bare(line: Seq<u8>) -> Seq<u8> {
    if line.len() > 0 && line.last() == RETURN {
        line.drop_last()
    } else {
        line
    }
}

/// The lines of `s`. The end of the last line may be missing.
pub open spec fn lines(s: Seq<u8>) -> Seq<Seq<u8>> {
    let ps = pieces(s, NEWLINE);
    let whole_lines = ps.drop_last().map_values(|l: Seq<u8>| bare(l));
    if ps.last().len() == 0 {
        whole_lines
    } else {
        whole_lines.push(ps.last())
    }
}

/// There is always a piece.
pub proof fn lemma_a_piece(s: Seq<u8>, sep: u8)
    ensures
        pieces(s, sep).len() >= 1,
    decreases s.len(),
{
    if s.len() > 0 {
        lemma_a_piece(s.drop_last(), sep);
    }
}

fn copied(v: &Vec<u8>) -> (out: Vec<u8>)
    ensures
        out@ == v@,
{
    let mut out: Vec<u8> = Vec::new();
    extend(&mut out, v.as_slice());
    assert(out@ =~= v@);
    out
}

/// Appends `more`.
pub fn extend(out: &mut Vec<u8>, more: &[u8])
    ensures
        final(out)@ == old(out)@ + more@,
{
    let ghost before = out@;
    assert(before + more@.take(0) =~= before);
    for i in 0..more.len()
        invariant
            out@ == before + more@.take(i as int),
    {
        out.push(more[i]);
        assert(before + more@.take(i as int + 1) =~= (before + more@.take(i as int)).push(
            more@[i as int],
        ));
    }
    assert(more@.take(more@.len() as int) =~= more@);
}

/// Cuts `s` at every `sep`.
pub fn split(s: &[u8], sep: u8) -> (out: Vec<Vec<u8>>)
    ensures
        texts(out@) == pieces(s@, sep),
{
    let mut out: Vec<Vec<u8>> = Vec::new();
    let mut piece: Vec<u8> = Vec::new();
    assert(texts(out@).push(piece@) =~~= pieces(s@.take(0), sep));
    for i in 0..s.len()
        invariant
            texts(out@).push(piece@) == pieces(s@.take(i as int), sep),
    {
        assert(s@.take(i as int + 1).drop_last() =~= s@.take(i as int));
        let ghost before = pieces(s@.take(i as int), sep);
        let ghost done = texts(out@);
        assert(before.drop_last() =~= done);
        assert(before.last() == piece@);
        if s[i] == sep {
            out.push(piece);
            piece = Vec::new();
            assert(texts(out@) =~= done.push(before.last()));
            assert(texts(out@).push(piece@) =~~= before.push(Seq::empty()));
        } else {
            piece.push(s[i]);
        }
    }
    assert(s@.take(s@.len() as int) =~= s@);
    let ghost done = texts(out@);
    let ghost last = piece@;
    out.push(piece);
    assert(texts(out@) =~= done.push(last));
    out
}

/// The lines of `s`.
pub fn split_lines(s: &[u8]) -> (out: Vec<Vec<u8>>)
    ensures
        texts(out@) == lines(s@),
{
    let ps = split(s, NEWLINE);
    proof {
        lemma_a_piece(s@, NEWLINE);
    }
    assert(ps@.len() == texts(ps@).len());
    let ghost all = texts(ps@);
    let n: usize = ps.len() - 1;
    let mut out: Vec<Vec<u8>> = Vec::new();
    for i in 0..n
        invariant
            all == texts(ps@),
            n == all.len() - 1,
            out@.len() == i,
            forall|a: int| 0 <= a < i ==> (#[trigger] out@[a])@ == bare(all[a]),
    {
        let mut line = copied(&ps[i]);
        assert(line@ == all[i as int]);
        let len: usize = line.len();
        if len > 0 && line[len - 1] == RETURN {
            line.pop();
        }
        assert(line@ =~= bare(all[i as int]));
        out.push(line);
    }
    let ghost whole_lines = all.drop_last().map_values(|l: Seq<u8>| bare(l));
    assert(texts(out@) =~~= whole_lines);
    let last = copied(&ps[n]);
    assert(last@ == all.last());
    if last.len() > 0 {
        out.push(last);
        assert(texts(out@) =~~= whole_lines.push(all.last()));
    }
    out
}

/// Appends a row: the fields joined by commas, and a newline.
pub fn push_row(out: &mut Vec<u8>, fields: &Vec<Vec<u8>>)
    ensures
        final(out)@ == (old(out)@ + joined(texts(fields@))).push(NEWLINE),
{
    let ghost before = out@;
    let ghost fs = texts(fields@);
    assert(before + joined(fs.take(0)) =~= before);
    for i in 0..fields.len()
        invariant
            fs == texts(fields@),
            out@ == before + joined(fs.take(i as int)),
    {
        assert(fs.take(i as int + 1).drop_last() =~= fs.take(i as int));
        if i > 0 {
            out.push(COMMA);
        }
        extend(out, fields[i].as_slice());
        assert(out@ =~= before + joined(fs.take(i as int + 1)));
    }
    assert(fs.take(fs.len() as int) =~= fs);
    out.push(NEWLINE);
}

/// No `sep` occurs in `s`.
pub open spec fn lacks(s: Seq<u8>, sep: u8) -> bool {
    forall|i: int| 0 <= i < s.len() ==> s[i] != sep
}

/// Text without a separator, appended after one, is the last piece.
proof fn lemma_last_piece(a: Seq<u8>, b: Seq<u8>, sep: u8)
    requires
        lacks(b, sep),
    ensures
        pieces(a.push(sep) + b, sep) == pieces(a, sep).push(b),
    decreases b.len(),
{
    let s = a.push(sep) + b;
    if b.len() == 0 {
        assert(s =~= a.push(sep));
        assert(s.drop_last() =~= a);
        assert(b =~= Seq::empty());
    } else {
        lemma_last_piece(a, b.drop_last(), sep);
        assert(s.drop_last() =~= a.push(sep) + b.drop_last());
        assert(s.last() == b.last());
        assert(b.drop_last().push(b.last()) =~= b);
        assert(pieces(a, sep).push(b.drop_last()).drop_last() =~= pieces(a, sep));
    }
}

/// Text without a separator is a single piece.
proof fn lemma_single_piece(s: Seq<u8>, sep: u8)
    requires
        lacks(s, sep),
    ensures
        pieces(s, sep) == seq![s],
    decreases s.len(),
{
    if s.len() == 0 {
        assert(s =~= Seq::empty());
    } else {
        assert(seq![s.drop_last()].drop_last() =~= Seq::empty());
        lemma_single_piece(s.drop_last(), sep);
        assert(s.drop_last().push(s.last()) =~= s);
        assert(pieces(s, sep) =~= seq![s]);
    }
}

/// Cutting a row at its commas gives back the fields that were joined, whatever they hold, as long
/// as no field holds a comma.
pub proof fn splitting_undoes_joining(fields: Seq<Seq<u8>>)
    requires
        fields.len() > 0,
        forall|i: int| 0 <= i < fields.len() ==> lacks(#[trigger] fields[i], COMMA),
    ensures
        pieces(joined(fields), COMMA) == fields,
    decreases fields.len(),
{
    if fields.len() == 1 {
        lemma_single_piece(fields[0], COMMA);
        assert(seq![fields[0]] =~= fields);
    } else {
        let init = fields.drop_last();
        assert forall|i: int| 0 <= i < init.len() implies lacks(#[trigger] init[i], COMMA) by {
            assert(init[i] == fields[i]);
        }
        splitting_undoes_joining(init);
        lemma_last_piece(joined(init), fields.last(), COMMA);
        assert(init.push(fields.last()) =~= fields);
    }
}

/// Rows, each ended by a newline.
pub open spec fn page(rows: Seq<Seq<u8>>) -> Seq<u8>
    decreases rows.len(),
{
    if rows.len() == 0 {
        Seq::empty()
    } else {
        (page(rows.drop_last()) + rows.last()).push(NEWLINE)
    }
}

/// The pieces of a page are its rows, with an empty one behind the last newline.
proof fn lemma_page_pieces(rows: Seq<Seq<u8>>)
    requires
        forall|i: int| 0 <= i < rows.len() ==> lacks(#[trigger] rows[i], NEWLINE),
    ensures
        pieces(page(rows), NEWLINE) == rows.push(Seq::empty()),
    decreases rows.len(),
{
    if rows.len() == 0 {
        assert(pieces(page(rows), NEWLINE) =~= rows.push(Seq::empty()));
    } else {
        let init = rows.drop_last();
        let last = rows.last();
        assert forall|i: int| 0 <= i < init.len() implies lacks(#[trigger] init[i], NEWLINE) by {
            assert(init[i] == rows[i]);
        }
        lemma_page_pieces(init);
        lemma_appended(page(init), last, NEWLINE);
        let s = page(rows);
        assert(s.drop_last() =~= page(init) + last);
        assert(init.push(Seq::empty()).drop_last() =~= init);
        assert(Seq::<u8>::empty() + last =~= last);
        assert(init.push(last) =~= rows);
    }
}

/// Text without a separator makes the last piece longer.
proof fn lemma_appended(a: Seq<u8>, b: Seq<u8>, sep: u8)
    requires
        lacks(b, sep),
    ensures
        pieces(a, sep).len() > 0,
        pieces(a + b, sep) == pieces(a, sep).drop_last().push(pieces(a, sep).last() + b),
    decreases b.len(),
{
    lemma_a_piece(a, sep);
    let before = pieces(a, sep);
    if b.len() == 0 {
        assert(a + b =~= a);
        assert(before.last() + b =~= before.last());
        assert(before.drop_last().push(before.last()) =~= before);
    } else {
        lemma_appended(a, b.drop_last(), sep);
        assert((a + b).drop_last() =~= a + b.drop_last());
        let shorter = before.drop_last().push(before.last() + b.drop_last());
        assert(shorter.drop_last() =~= before.drop_last());
        assert((before.last() + b.drop_last()).push(b.last()) =~= before.last() + b);
    }
}

/// Reading a page line by line gives back the rows that were written, as long as no row holds a
/// newline or ends in a carriage return.
pub proof fn lines_undo_paging(rows: Seq<Seq<u8>>)
    requires
        forall|i: int| 0 <= i < rows.len() ==> lacks(#[trigger] rows[i], NEWLINE),
        forall|i: int| 0 <= i < rows.len() ==> bare(#[trigger] rows[i]) == rows[i],
    ensures
        lines(page(rows)) == rows,
{
    lemma_page_pieces(rows);
    let ps = rows.push(Seq::<u8>::empty());
    assert(ps.drop_last() =~= rows);
    assert(rows.map_values(|l: Seq<u8>| bare(l)) =~= rows);
}

/// A field more on a row: a comma, and the field.
pub proof fn joining_puts_a_comma_between(fields: Seq<Seq<u8>>, field: Seq<u8>)
    ensures
        joined(fields.push(field)) == (if fields.len() == 0 {
            field
        } else {
            joined(fields) + seq![44u8] + field
        }),
{
    let all = fields.push(field);
    assert(all.drop_last() =~= fields);
    if fields.len() > 0 {
        assert(joined(all) =~= joined(fields) + seq![44u8] + field);
    }
}

/// The pieces of a text hold no separator, and joining them gives the text back.
pub proof fn joining_undoes_splitting(s: Seq<u8>)
    ensures
        joined(pieces(s, COMMA)) == s,
        forall|i: int| 0 <= i < pieces(s, COMMA).len() ==> lacks(#[trigger] pieces(s, COMMA)[i], COMMA),
    decreases s.len(),
{
    if s.len() > 0 {
        let front = s.drop_last();
        joining_undoes_splitting(front);
        lemma_a_piece(front, COMMA);
        let before = pieces(front, COMMA);
        assert(s =~= front.push(s.last()));
        if s.last() == COMMA {
            joining_puts_a_comma_between(before, Seq::empty());
            assert(joined(before) + seq![44u8] + Seq::<u8>::empty() =~= s);
        } else {
            let init = before.drop_last();
            let longer = before.last().push(s.last());
            assert(init.push(before.last()) =~= before);
            joining_puts_a_comma_between(init, before.last());
            joining_puts_a_comma_between(init, longer);
            if init.len() > 0 {
                assert(joined(init) + seq![44u8] + longer =~= (joined(init) + seq![44u8]
                    + before.last()).push(s.last()));
            }
            assert(lacks(before[before.len() - 1], COMMA));
            assert forall|i: int| 0 <= i < pieces(s, COMMA).len() implies lacks(
                #[trigger] pieces(s, COMMA)[i],
                COMMA,
            ) by {
                if i < init.len() {
                    assert(pieces(s, COMMA)[i] == before[i]);
                }
            }
        }
    } else {
        assert(pieces(s, COMMA) =~= seq![Seq::<u8>::empty()]);
    }
}

/// A line more on a text that ends with its last line: the line is read without what ends it, be that a
/// newline or a carriage return and a newline. A last line that nothing ends is read as it is.
pub proof fn line_ends_at_its_newline(rows: Seq<Seq<u8>>, row: Seq<u8>)
    requires
        forall|i: int| 0 <= i < rows.len() ==> lacks(#[trigger] rows[i], NEWLINE),
        lacks(row, NEWLINE),
    ensures
        row.len() > 0 ==> lines(page(rows) + row) == lines(page(rows)).push(row),
        row.len() == 0 || row.last() != 13 ==> lines(page(rows) + row + seq![10u8]) == lines(page(rows)).push(
            row,
        ),
        lines(page(rows) + row + seq![13u8, 10u8]) == lines(page(rows)).push(row),
{
    lemma_page_pieces(rows);
    let before = rows.push(Seq::<u8>::empty());
    assert(before.drop_last() =~= rows);
    lemma_appended(page(rows), row, NEWLINE);
    assert(Seq::<u8>::empty() + row =~= row);
    let bared = rows.map_values(|l: Seq<u8>| bare(l));
    assert(lines(page(rows)) =~= bared);
    assert(rows.push(row).drop_last() =~= rows);
    lemma_ended(rows, row);
    let with_return = row.push(13u8);
    lemma_ended(rows, with_return);
    assert(page(rows) + row + seq![13u8, 10u8] =~= page(rows) + with_return + seq![10u8]);
    assert(with_return.drop_last() =~= row);
}

proof fn lemma_ended(rows: Seq<Seq<u8>>, row: Seq<u8>)
    requires
        forall|i: int| 0 <= i < rows.len() ==> lacks(#[trigger] rows[i], NEWLINE),
        lacks(row, NEWLINE),
    ensures
        lines(page(rows) + row + seq![10u8]) == lines(page(rows)).push(bare(row)),
{
    let all = rows.push(row);
    assert(all.drop_last() =~= rows);
    assert(page(all) =~= page(rows) + row + seq![10u8]);
    lemma_page_pieces(rows);
    lemma_page_pieces(all);
    assert(all.push(Seq::<u8>::empty()).drop_last() =~= all);
    assert(rows.push(Seq::<u8>::empty()).drop_last() =~= rows);
    assert(all.map_values(|l: Seq<u8>| bare(l)) =~= rows.map_values(|l: Seq<u8>| bare(l)).push(bare(row)));
}

} // verus!
