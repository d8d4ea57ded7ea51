use vstd::prelude::*;
use vstd::utf8::encode_utf8;

use crate::escape::{escape, escape_byte, write_escaped, LINE_FEED, TAB};

verus! {

/// A value in a row of an `INSERT`: the closed set of forms a dump holds.
#[derive(Debug, PartialEq, Eq)]
pub enum Literal {
    /// A number, as the digits stood in the dump.
    Number(String),
    /// A unary minus applied to a number.
    NegativeNumber(String),
    /// A quoted string, with its quotes already stripped.
    QuotedString(String),
    /// `NULL`.
    Null,
}

/// The UTF-8 bytes of a text.
pub open spec fn text_bytes(t: Seq<char>) -> Seq<u8> {
    encode_utf8(t)
}

/// The bytes of `null`, written for a `NULL` literal.
pub open spec fn null_bytes() -> Seq<u8> {
    seq![110u8, 117u8, 108u8, 108u8]
}

/// The byte of the minus sign.
pub const MINUS: u8 = 45;

/// The text a literal stands for, before escaping.
pub open spec fn literal_text(l: Literal) -> Seq<u8> {
    match l {
        Literal::Number(t) => text_bytes(t@),
        Literal::NegativeNumber(t) => seq![MINUS] + text_bytes(t@),
        Literal::QuotedString(t) => text_bytes(t@),
        Literal::Null => null_bytes(),
    }
}

/// One rendered field: the escaped text of the literal, then a tab.
pub open spec fn render_literal(l: Literal) -> Seq<u8> {
    escape(literal_text(l)) + seq![TAB]
}

/// The fields of a row, one after the other.
pub open spec fn render_fields(row: Seq<Literal>) -> Seq<u8>
    decreases row.len(),
{
    if row.len() == 0 {
        Seq::empty()
    } else {
        render_fields(row.drop_last()) + render_literal(row.last())
    }
}

/// One data line: the fields of the row, then a line feed.
pub open spec fn render_row(row: Seq<Literal>) -> Seq<u8> {
    render_fields(row) + seq![LINE_FEED]
}

/// The data lines of several rows, in order.
pub open spec fn render_rows(rows: Seq<Vec<Literal>>) -> Seq<u8>
    decreases rows.len(),
{
    if rows.len() == 0 {
        Seq::empty()
    } else {
        render_rows(rows.drop_last()) + render_row(rows.last()@)
    }
}

/// The header fields: each column name, unescaped, followed by a tab.
pub open spec fn header_fields(columns: Seq<String>) -> Seq<u8>
    decreases columns.len(),
{
    if columns.len() == 0 {
        Seq::empty()
    } else {
        header_fields(columns.drop_last()) + text_bytes(columns.last()@) + seq![TAB]
    }
}

/// The header line of a table file.
pub open spec fn header_line(columns: Seq<String>) -> Seq<u8> {
    header_fields(columns) + seq![LINE_FEED]
}

/// A rendered field holds no raw line feed or carriage return, and its only
/// raw tab is the last byte.
pub open spec fn is_single_field(f: Seq<u8>) -> bool {
    &&& f.len() > 0
    &&& f.last() == TAB
    &&& forall|i: int|
        0 <= i < f.len() ==> #[trigger] f[i] != LINE_FEED && f[i] != 13u8 && (f[i] == TAB ==> i
            == f.len() - 1)
}

/// The escape of any bytes holds no tab, line feed or carriage return.
pub proof fn lemma_escape_has_no_controls(s: Seq<u8>)
    ensures
        forall|i: int|
            0 <= i < escape(s).len() ==> #[trigger] escape(s)[i] != TAB && escape(s)[i]
                != LINE_FEED && escape(s)[i] != 13u8,
    decreases s.len(),
{
    if s.len() > 0 {
        lemma_escape_has_no_controls(s.drop_last());
        let p = escape(s.drop_last());
        let q = escape_byte(s.last());
        assert(escape(s) == p + q);
        assert forall|i: int| 0 <= i < escape(s).len() implies #[trigger] escape(s)[i] != TAB
            && escape(s)[i] != LINE_FEED && escape(s)[i] != 13u8 by {
            if i < p.len() {
                assert(escape(s)[i] == p[i]);
            } else {
                assert(escape(s)[i] == q[i - p.len()]);
            }
        }
    }
}

/// Rendering is a function of the literal alone: equal literals give equal
/// bytes, appended to whatever a sink already holds, and each rendering is
/// one field ended by its single raw tab.
pub proof fn lemma_render_deterministic(a: Literal, b: Literal, sink: Seq<u8>)
    requires
        a == b,
    ensures
        render_literal(a) == render_literal(b),
        sink + render_literal(a) == sink + render_literal(b),
        is_single_field(render_literal(a)),
{
    let e = escape(literal_text(a));
    lemma_escape_has_no_controls(literal_text(a));
    let f = render_literal(a);
    assert forall|i: int| 0 <= i < f.len() implies #[trigger] f[i] != LINE_FEED && f[i] != 13u8
        && (f[i] == TAB ==> i == f.len() - 1) by {
        if i < e.len() {
            assert(f[i] == e[i]);
        }
    }
}

/// No column name holds a line feed.
pub open spec fn names_free_of_line_feeds(columns: Seq<String>) -> bool {
    forall|c: int, i: int|
        0 <= c < columns.len() && 0 <= i < text_bytes(columns[c]@).len() ==> #[trigger] text_bytes(
            columns[c]@,
        )[i] != LINE_FEED
}

/// The header fields hold no line feed when no column name does.
pub proof fn lemma_header_fields_one_line(columns: Seq<String>)
    requires
        names_free_of_line_feeds(columns),
    ensures
        forall|i: int|
            0 <= i < header_fields(columns).len() ==> #[trigger] header_fields(columns)[i]
                != LINE_FEED,
    decreases columns.len(),
{
    if columns.len() > 0 {
        let init = columns.drop_last();
        assert forall|c: int, i: int|
            0 <= c < init.len() && 0 <= i < text_bytes(init[c]@).len() implies #[trigger] text_bytes(
            init[c]@,
        )[i] != LINE_FEED by {
            assert(init[c] == columns[c]);
        }
        lemma_header_fields_one_line(init);
        let p = header_fields(init);
        let t = text_bytes(columns.last()@);
        let h = header_fields(columns);
        assert(h == p + t + seq![TAB]);
        assert forall|i: int| 0 <= i < h.len() implies #[trigger] h[i] != LINE_FEED by {
            if i < p.len() {
                assert(h[i] == p[i]);
            } else if i < p.len() + t.len() {
                assert(h[i] == t[i - p.len()]);
                assert(columns[columns.len() - 1] == columns.last());
            } else {
                assert(h[i] == TAB);
            }
        }
    }
}

/// A table whose `CREATE TABLE` is followed by no data rows holds exactly one
/// line, the header: its only line feed is the last byte.
pub proof fn lemma_header_only_table(columns: Seq<String>)
    requires
        names_free_of_line_feeds(columns),
    ensures
        header_line(columns) + render_rows(Seq::<Vec<Literal>>::empty()) == header_line(columns),
        header_line(columns).last() == LINE_FEED,
        forall|i: int|
            0 <= i < header_line(columns).len() - 1 ==> #[trigger] header_line(columns)[i]
                != LINE_FEED,
{
    lemma_header_fields_one_line(columns);
    assert(render_rows(Seq::<Vec<Literal>>::empty()) =~= Seq::<u8>::empty());
    assert(header_line(columns) + Seq::<u8>::empty() =~= header_line(columns));
    let h = header_fields(columns);
    assert forall|i: int| 0 <= i < header_line(columns).len() - 1 implies #[trigger] header_line(
        columns,
    )[i] != LINE_FEED by {
        assert(header_line(columns)[i] == h[i]);
    }
}

/// Appends the rendered field of `lit` to `out`.
pub fn string_of_col(lit: &Literal, out: &mut Vec<u8>)
    ensures
        final(out)@ == old(out)@ + render_literal(*lit),
{
    match lit {
        Literal::Number(t) => {
            write_escaped(t.as_str().as_bytes(), out);
        },
        Literal::NegativeNumber(t) => {
            let ghost before = out@;
            out.push(MINUS);
            write_escaped(t.as_str().as_bytes(), out);
            proof {
                crate::escape::lemma_escape_concat(seq![MINUS], text_bytes(t@));
                assert(escape(seq![MINUS]) =~= seq![MINUS]) by {
                    assert(seq![MINUS].drop_last() =~= Seq::<u8>::empty());
                    assert(escape(Seq::<u8>::empty()) =~= Seq::<u8>::empty());
                }
                assert(out@ =~= before + render_literal(*lit));
            }
        },
        Literal::QuotedString(t) => {
            write_escaped(t.as_str().as_bytes(), out);
        },
        Literal::Null => {
            let null: Vec<u8> = vec![110u8, 117u8, 108u8, 108u8];
            assert(null@ =~= null_bytes());
            write_escaped(null.as_slice(), out);
        },
    }
}

/// Appends one data line for `row` to `out`.
pub fn write_row(row: &Vec<Literal>, out: &mut Vec<u8>)
    ensures
        final(out)@ == old(out)@ + render_row(row@),
{
    let n = row.len();
    let mut i: usize = 0;
    while i < n
        invariant
            n == row@.len(),
            i <= n,
            out@ == old(out)@ + render_fields(row@.subrange(0, i as int)),
        decreases n - i,
    {
        string_of_col(&row[i], out);
        proof {
            let next = row@.subrange(0, i + 1);
            assert(next.drop_last() =~= row@.subrange(0, i as int));
            assert(next.last() == row@[i as int]);
        }
        i = i + 1;
        assert(out@ =~= old(out)@ + render_fields(row@.subrange(0, i as int)));
    }
    assert(row@.subrange(0, n as int) =~= row@);
    out.push(LINE_FEED);
}

/// The data lines for `rows`, in order.
pub fn render_insert_rows(rows: &Vec<Vec<Literal>>) -> (r: Vec<u8>)
    ensures
        r@ == render_rows(rows@),
{
    let mut out: Vec<u8> = Vec::new();
    let n = rows.len();
    let mut i: usize = 0;
    while i < n
        invariant
            n == rows@.len(),
            i <= n,
            out@ == render_rows(rows@.subrange(0, i as int)),
        decreases n - i,
    {
        write_row(&rows[i], &mut out);
        proof {
            let next = rows@.subrange(0, i + 1);
            assert(next.drop_last() =~= rows@.subrange(0, i as int));
            assert(next.last() == rows@[i as int]);
        }
        i = i + 1;
    }
    assert(rows@.subrange(0, n as int) =~= rows@);
    out
}

/// The header line for `columns`: each name followed by a tab, then a line feed.
pub fn header(columns: &Vec<String>) -> (r: Vec<u8>)
    ensures
        r@ == header_line(columns@),
{
    let mut out: Vec<u8> = Vec::new();
    let n = columns.len();
    let mut i: usize = 0;
    while i < n
        invariant
            n == columns@.len(),
            i <= n,
            out@ == header_fields(columns@.subrange(0, i as int)),
        decreases n - i,
    {
        let name = columns[i].as_str().as_bytes();
        let m = name.len();
        let ghost before = out@;
        let mut j: usize = 0;
        while j < m
            invariant
                m == name@.len(),
                j <= m,
                out@ == before + name@.subrange(0, j as int),
            decreases m - j,
        {
            out.push(name[j]);
            j = j + 1;
            assert(out@ =~= before + name@.subrange(0, j as int));
        }
        out.push(TAB);
        proof {
            let next = columns@.subrange(0, i + 1);
            assert(next.drop_last() =~= columns@.subrange(0, i as int));
            assert(next.last() == columns@[i as int]);
            assert(name@.subrange(0, m as int) =~= name@);
            assert(name@ == text_bytes(columns@[i as int]@));
        }
        i = i + 1;
    }
    assert(columns@.subrange(0, n as int) =~= columns@);
    out.push(LINE_FEED);
    out
}

} // verus!
