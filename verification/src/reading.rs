//! Where fields and lines end: the canonical bytes can be cut back into their
//! fields in one way only.

use vstd::prelude::*;
use crate::serializer::{escaped, is_special, joined, line, lines, row_fields, LINE_FEED, QUOTE, SEPARATOR};
use crate::table::CellView;

verus! {

/// A field without quotes: no byte of it is special.
pub open spec fn bare(f: Seq<u8>) -> bool {
    forall|i: int| 0 <= i < f.len() ==> !is_special(#[trigger] f[i])
}

/// A field in quotes: some text, escaped, between two quotes.
pub open spec fn quoted(f: Seq<u8>) -> bool {
    exists|text: Seq<u8>| f == seq![QUOTE] + escaped(text) + seq![QUOTE]
}

/// A field as the serializer writes it.
pub open spec fn delimited(f: Seq<u8>) -> bool {
    bare(f) || quoted(f)
}

/// The bytes that stand for one byte of text inside quotes.
pub open spec fn escaped_byte(b: u8) -> Seq<u8> {
    if b == QUOTE {
        seq![QUOTE, QUOTE]
    } else {
        seq![b]
    }
}

/// Escaping goes byte by byte, so it can be taken from the front as well.
pub proof fn lemma_escaped_front(text: Seq<u8>)
    requires
        text.len() > 0,
    ensures
        escaped(text) == escaped_byte(text[0]) + escaped(text.drop_first()),
    decreases text.len(),
{
    if text.len() == 1 {
        assert(text.drop_last() =~= Seq::empty());
        assert(text.drop_first() =~= Seq::empty());
        assert(escaped(text) =~= escaped_byte(text[0]) + escaped(text.drop_first()));
    } else {
        lemma_escaped_front(text.drop_last());
        assert(text.drop_last().drop_first() =~= text.drop_first().drop_last());
        assert(text.drop_last()[0] == text[0]);
        assert(text.drop_first().last() == text.last());
        assert(escaped(text) =~= escaped_byte(text[0]) + escaped(text.drop_first()));
    }
}

/// Escaped text followed by a quote and a byte that is none: where the escaped
/// text ends can be told from the bytes.
pub proof fn lemma_escaped_end(a: Seq<u8>, x: u8, ra: Seq<u8>, b: Seq<u8>, y: u8, rb: Seq<u8>)
    requires
        x != QUOTE,
        y != QUOTE,
        escaped(a) + seq![QUOTE, x] + ra == escaped(b) + seq![QUOTE, y] + rb,
    ensures
        a == b,
        x == y,
        ra == rb,
    decreases a.len() + b.len(),
{
    let left = escaped(a) + seq![QUOTE, x] + ra;
    let right = escaped(b) + seq![QUOTE, y] + rb;
    if a.len() > 0 {
        lemma_escaped_front(a);
    }
    if b.len() > 0 {
        lemma_escaped_front(b);
    }
    if a.len() == 0 && b.len() == 0 {
        assert(a =~= b);
        assert(left[1] == x && right[1] == y);
        assert(ra =~= left.skip(2));
        assert(rb =~= right.skip(2));
    } else if a.len() == 0 {
        assert(left[0] == QUOTE && left[1] == x);
        assert(right[0] == escaped_byte(b[0])[0]);
        if b[0] == QUOTE {
            assert(right[1] == QUOTE);
        }
    } else if b.len() == 0 {
        assert(right[0] == QUOTE && right[1] == y);
        assert(left[0] == escaped_byte(a[0])[0]);
        if a[0] == QUOTE {
            assert(left[1] == QUOTE);
        }
    } else {
        assert(left[0] == escaped_byte(a[0])[0]);
        assert(right[0] == escaped_byte(b[0])[0]);
        assert(a[0] == b[0]);
        let n = escaped_byte(a[0]).len() as int;
        assert(left.skip(n) =~= escaped(a.drop_first()) + seq![QUOTE, x] + ra);
        assert(right.skip(n) =~= escaped(b.drop_first()) + seq![QUOTE, y] + rb);
        lemma_escaped_end(a.drop_first(), x, ra, b.drop_first(), y, rb);
        assert(a =~= seq![a[0]] + a.drop_first());
        assert(b =~= seq![b[0]] + b.drop_first());
    }
}

/// Where a field ends can be told from the bytes: of two fields, each followed by
/// a separator or a line feed, neither is a proper prefix of the other.
pub proof fn lemma_field_end(f: Seq<u8>, x: u8, rf: Seq<u8>, g: Seq<u8>, y: u8, rg: Seq<u8>)
    requires
        delimited(f),
        delimited(g),
        x == SEPARATOR || x == LINE_FEED,
        y == SEPARATOR || y == LINE_FEED,
        f + seq![x] + rf == g + seq![y] + rg,
    ensures
        f == g,
        x == y,
        rf == rg,
{
    let left = f + seq![x] + rf;
    let right = g + seq![y] + rg;
    if quoted(f) && quoted(g) {
        let a = choose|text: Seq<u8>| f == seq![QUOTE] + escaped(text) + seq![QUOTE];
        let b = choose|text: Seq<u8>| g == seq![QUOTE] + escaped(text) + seq![QUOTE];
        assert(left.skip(1) =~= escaped(a) + seq![QUOTE, x] + rf);
        assert(right.skip(1) =~= escaped(b) + seq![QUOTE, y] + rg);
        lemma_escaped_end(a, x, rf, b, y, rg);
    } else if quoted(f) {
        let a = choose|text: Seq<u8>| f == seq![QUOTE] + escaped(text) + seq![QUOTE];
        assert(left[0] == QUOTE);
        if g.len() == 0 {
            assert(right[0] == y);
        } else {
            assert(right[0] == g[0]);
            assert(is_special(g[0]));
        }
    } else if quoted(g) {
        let b = choose|text: Seq<u8>| g == seq![QUOTE] + escaped(text) + seq![QUOTE];
        assert(right[0] == QUOTE);
        if f.len() == 0 {
            assert(left[0] == x);
        } else {
            assert(left[0] == f[0]);
            assert(is_special(f[0]));
        }
    } else {
        if f.len() < g.len() {
            assert(left[f.len() as int] == x);
            assert(right[f.len() as int] == g[f.len() as int]);
            assert(is_special(g[f.len() as int]));
        } else if g.len() < f.len() {
            assert(right[g.len() as int] == y);
            assert(left[g.len() as int] == f[g.len() as int]);
            assert(is_special(f[g.len() as int]));
        } else {
            assert(f =~= left.take(f.len() as int));
            assert(g =~= right.take(g.len() as int));
            assert(left[f.len() as int] == x);
            assert(right[g.len() as int] == y);
            assert(rf =~= left.skip(f.len() as int + 1));
            assert(rg =~= right.skip(g.len() as int + 1));
        }
    }
}

/// Joining can be taken from the front as well.
pub proof fn lemma_joined_front(fields: Seq<Seq<u8>>)
    requires
        fields.len() >= 2,
    ensures
        joined(fields) == fields[0] + seq![SEPARATOR] + joined(fields.drop_first()),
    decreases fields.len(),
{
    if fields.len() == 2 {
        assert(joined(fields.drop_last()) == fields.drop_last()[0]);
        assert(joined(fields.drop_first()) == fields.drop_first()[0]);
        assert(joined(fields) =~= fields[0] + seq![SEPARATOR] + joined(fields.drop_first()));
    } else {
        lemma_joined_front(fields.drop_last());
        assert(fields.drop_last().drop_first() =~= fields.drop_first().drop_last());
        assert(fields.drop_first().last() == fields.last());
        assert(joined(fields) =~= fields[0] + seq![SEPARATOR] + joined(fields.drop_first()));
    }
}

/// Every field is delimited.
pub open spec fn all_delimited(fields: Seq<Seq<u8>>) -> bool {
    forall|i: int| 0 <= i < fields.len() ==> delimited(#[trigger] fields[i])
}

/// A line of a known number of fields can be cut into its fields in one way only.
pub proof fn lemma_line_unique(f: Seq<Seq<u8>>, rf: Seq<u8>, g: Seq<Seq<u8>>, rg: Seq<u8>)
    requires
        f.len() == g.len(),
        all_delimited(f),
        all_delimited(g),
        line(f) + rf == line(g) + rg,
    ensures
        f == g,
        rf == rg,
    decreases f.len(),
{
    let left = line(f) + rf;
    let right = line(g) + rg;
    if f.len() == 0 {
        assert(f =~= g);
        assert(rf =~= left.skip(1));
        assert(rg =~= right.skip(1));
    } else if f.len() == 1 {
        assert(left =~= f[0] + seq![LINE_FEED] + rf);
        assert(right =~= g[0] + seq![LINE_FEED] + rg);
        lemma_field_end(f[0], LINE_FEED, rf, g[0], LINE_FEED, rg);
        assert(f =~= g);
    } else {
        lemma_joined_front(f);
        lemma_joined_front(g);
        let tf = line(f.drop_first()) + rf;
        let tg = line(g.drop_first()) + rg;
        assert(left =~= f[0] + seq![SEPARATOR] + tf);
        assert(right =~= g[0] + seq![SEPARATOR] + tg);
        lemma_field_end(f[0], SEPARATOR, tf, g[0], SEPARATOR, tg);
        assert(all_delimited(f.drop_first())) by {
            assert forall|i: int| 0 <= i < f.drop_first().len() implies delimited(#[trigger] f.drop_first()[i]) by {
                assert(f.drop_first()[i] == f[i + 1]);
            }
        }
        assert(all_delimited(g.drop_first())) by {
            assert forall|i: int| 0 <= i < g.drop_first().len() implies delimited(#[trigger] g.drop_first()[i]) by {
                assert(g.drop_first()[i] == g[i + 1]);
            }
        }
        lemma_line_unique(f.drop_first(), rf, g.drop_first(), rg);
        assert(f =~= seq![f[0]] + f.drop_first());
        assert(g =~= seq![g[0]] + g.drop_first());
    }
}

/// The lines of some rows can be taken from the front as well.
pub proof fn lemma_lines_front(rows: Seq<Seq<CellView>>)
    requires
        rows.len() > 0,
    ensures
        lines(rows) == line(row_fields(rows[0])) + lines(rows.drop_first()),
    decreases rows.len(),
{
    if rows.len() == 1 {
        assert(rows.drop_last() =~= Seq::empty());
        assert(rows.drop_first() =~= Seq::empty());
        assert(lines(rows) =~= line(row_fields(rows[0])) + lines(rows.drop_first()));
    } else {
        lemma_lines_front(rows.drop_last());
        assert(rows.drop_last().drop_first() =~= rows.drop_first().drop_last());
        assert(rows.drop_last()[0] == rows[0]);
        assert(rows.drop_first().last() == rows.last());
        assert(lines(rows) =~= line(row_fields(rows[0])) + lines(rows.drop_first()));
    }
}

/// Every row has `width` cells, and the field of each cell is delimited.
pub open spec fn rows_delimited(rows: Seq<Seq<CellView>>, width: nat) -> bool {
    forall|i: int|
        0 <= i < rows.len() ==> (#[trigger] rows[i]).len() == width && all_delimited(row_fields(rows[i]))
}

/// The lines of rows of a known width can be cut into rows and fields in one way
/// only: two sequences of rows with the same lines have the same fields.
pub proof fn lemma_lines_unique(a: Seq<Seq<CellView>>, b: Seq<Seq<CellView>>, width: nat)
    requires
        rows_delimited(a, width),
        rows_delimited(b, width),
        lines(a) == lines(b),
    ensures
        a.len() == b.len(),
        forall|i: int| 0 <= i < a.len() ==> row_fields(#[trigger] a[i]) == row_fields(b[i]),
    decreases a.len(),
{
    if a.len() > 0 {
        lemma_lines_front(a);
        assert(lines(a).len() > 0);
    }
    if b.len() > 0 {
        lemma_lines_front(b);
        assert(lines(b).len() > 0);
    }
    if a.len() > 0 && b.len() > 0 {
        let ta = a.drop_first();
        let tb = b.drop_first();
        assert(rows_delimited(ta, width)) by {
            assert forall|i: int| 0 <= i < ta.len() implies (#[trigger] ta[i]).len() == width && all_delimited(
                row_fields(ta[i]),
            ) by {
                assert(ta[i] == a[i + 1]);
            }
        }
        assert(rows_delimited(tb, width)) by {
            assert forall|i: int| 0 <= i < tb.len() implies (#[trigger] tb[i]).len() == width && all_delimited(
                row_fields(tb[i]),
            ) by {
                assert(tb[i] == b[i + 1]);
            }
        }
        lemma_line_unique(row_fields(a[0]), lines(ta), row_fields(b[0]), lines(tb));
        lemma_lines_unique(ta, tb, width);
        assert forall|i: int| 0 <= i < a.len() implies row_fields(#[trigger] a[i]) == row_fields(b[i]) by {
            if i > 0 {
                assert(ta[i - 1] == a[i]);
                assert(tb[i - 1] == b[i]);
            }
        }
    }
}

} // verus!
