//! The terminal table: every record as an aligned row under a header and a
//! dashed divider. The program prints the lines this module computes.

use vstd::prelude::*;
use crate::record::{Record, RecordView};
use crate::text::{
    chars_of, dec_int, string_from, dec_nat, push_char, push_decimal, push_signed_decimal, push_str, string_of,
    trim_end, trim_end_index,
};
use crate::wire::views;

verus! {

/// Number of columns of the table.
pub const COLUMNS: usize = 7;

/// A single `-`, shown for anything unknown or empty.
pub open spec fn dash() -> Seq<char> {
    seq!['-']
}

/// A pid as the table shows it: `-` when unknown.
pub open spec fn pid_cell(pid: i32) -> Seq<char> {
    if pid == 0 {
        dash()
    } else {
        dec_int(pid as int)
    }
}

/// A text as the table shows it: `-` when empty.
pub open spec fn non_empty_text(t: Seq<char>) -> Seq<char> {
    if t.len() == 0 {
        dash()
    } else {
        t
    }
}

/// `n` spaces.
pub open spec fn spaces(n: nat) -> Seq<char> {
    Seq::new(n, |i: int| ' ')
}

/// `t` followed by spaces up to `width` characters.
pub open spec fn padded(t: Seq<char>, width: nat) -> Seq<char> {
    if t.len() >= width {
        t
    } else {
        t + spaces((width - t.len()) as nat)
    }
}

/// The column headers, in display order.
pub open spec fn headers() -> Seq<Seq<char>> {
    seq![
        seq!['P', 'R', 'O', 'T', 'O'],
        seq!['A', 'D', 'D', 'R', 'E', 'S', 'S'],
        seq!['P', 'O', 'R', 'T'],
        seq!['P', 'I', 'D'],
        seq!['P', 'R', 'O', 'C', 'E', 'S', 'S'],
        seq!['U', 'S', 'E', 'R'],
        seq!['C', 'O', 'M', 'M', 'A', 'N', 'D'],
    ]
}

/// The cells of a record's row.
pub open spec fn cells(r: RecordView) -> Seq<Seq<char>> {
    seq![
        r.proto,
        r.addr,
        dec_nat(r.port as nat),
        pid_cell(r.pid),
        non_empty_text(r.process),
        non_empty_text(r.user),
        non_empty_text(r.cmd),
    ]
}

/// The width of column `c`: its widest cell, the header included.
pub open spec fn column_width(rows: Seq<Seq<Seq<char>>>, c: int) -> nat
    decreases rows.len(),
{
    if rows.len() == 0 {
        headers()[c].len()
    } else {
        let w = column_width(rows.drop_last(), c);
        let n = rows.last()[c].len();
        if n > w {
            n
        } else {
            w
        }
    }
}

/// The pieces of a row joined left to right, two spaces between columns.
pub open spec fn join_columns(parts: Seq<Seq<char>>) -> Seq<char>
    decreases parts.len(),
{
    if parts.len() == 0 {
        Seq::<char>::empty()
    } else if parts.len() == 1 {
        parts[0]
    } else {
        join_columns(parts.drop_last()) + seq![' ', ' '] + parts.last()
    }
}

/// One row: each cell padded to its column width, trailing whitespace cut.
pub open spec fn row_line(row: Seq<Seq<char>>, widths: Seq<nat>) -> Seq<char> {
    trim_end(join_columns(Seq::new(COLUMNS as nat, |c: int| padded(row[c], widths[c]))))
}

/// The dashed divider under the header.
pub open spec fn divider_line(widths: Seq<nat>) -> Seq<char> {
    trim_end(join_columns(Seq::new(COLUMNS as nat, |c: int| Seq::new(widths[c], |i: int| '-'))))
}

/// The message printed instead of an empty table.
pub open spec fn no_ports_text() -> Seq<char> {
    seq![
        'n', 'o', ' ', 'l', 'i', 's', 't', 'e', 'n', 'i', 'n', 'g', ' ', 'T', 'C', 'P', ' ', 'p',
        'o', 'r', 't', 's', ' ', 'f', 'o', 'u', 'n', 'd', '.',
    ]
}

/// The lines of the table of `rs`: header, divider, one row per record.
pub open spec fn table_spec(rs: Seq<RecordView>) -> Seq<Seq<char>> {
    if rs.len() == 0 {
        seq![no_ports_text()]
    } else {
        let rows = rs.map_values(|r: RecordView| cells(r));
        let widths = Seq::new(COLUMNS as nat, |c: int| column_width(rows, c));
        seq![row_line(headers(), widths), divider_line(widths)] + rows.map_values(
            |row: Seq<Seq<char>>| row_line(row, widths),
        )
    }
}

/// Pad `text` on the right with spaces until it is `width` characters wide.
pub fn pad_right(text: &str, width: usize) -> (padded_text: String)
    ensures
        padded_text@ == padded(text@, width as nat),
{
    let mut padded_text = String::new();
    push_str(&mut padded_text, text);
    let current = chars_of(text).len();
    let mut i = current;
    while i < width
        invariant
            current == text@.len(),
            current <= i,
            i <= width || i == current,
            padded_text@ == text@ + spaces((i - current) as nat),
        decreases width - i,
    {
        push_char(&mut padded_text, ' ');
        i = i + 1;
        assert(padded_text@ =~= text@ + spaces((i - current) as nat));
    }
    if current >= width {
        assert(padded_text@ =~= text@);
    }
    padded_text
}

/// Show a pid, or `-` when it is unknown.
pub fn format_pid(pid: i32) -> (s: String)
    ensures
        s@ == pid_cell(pid),
{
    let mut s = String::new();
    if pid == 0 {
        push_char(&mut s, '-');
        assert(s@ =~= dash());
    } else {
        push_signed_decimal(&mut s, pid as i64);
    }
    s
}

/// Replace an empty text with `-` so the table has no blank holes.
pub fn non_empty(text: &str) -> (s: String)
    ensures
        s@ == non_empty_text(text@),
{
    let mut s = String::new();
    if text.is_empty() {
        push_char(&mut s, '-');
        assert(s@ =~= dash());
    } else {
        push_str(&mut s, text);
    }
    s
}


/// The texts of a list of strings.
pub open spec fn texts(v: Seq<String>) -> Seq<Seq<char>> {
    v.map_values(|s: String| s@)
}

fn header_cells() -> (h: Vec<String>)
    ensures
        texts(h@) == headers(),
        h@.len() == COLUMNS,
{
    let mut h: Vec<String> = Vec::new();
    h.push(string_from(&['P', 'R', 'O', 'T', 'O']));
    h.push(string_from(&['A', 'D', 'D', 'R', 'E', 'S', 'S']));
    h.push(string_from(&['P', 'O', 'R', 'T']));
    h.push(string_from(&['P', 'I', 'D']));
    h.push(string_from(&['P', 'R', 'O', 'C', 'E', 'S', 'S']));
    h.push(string_from(&['U', 'S', 'E', 'R']));
    h.push(string_from(&['C', 'O', 'M', 'M', 'A', 'N', 'D']));
    assert(texts(h@) =~= headers());
    h
}

fn row_cells(r: &Record) -> (row: Vec<String>)
    ensures
        texts(row@) == cells(r@),
{
    let mut row: Vec<String> = Vec::new();
    row.push(r.proto.clone());
    row.push(r.addr.clone());
    let mut port = String::new();
    push_decimal(&mut port, r.port as u64);
    row.push(port);
    row.push(format_pid(r.pid));
    row.push(non_empty(r.process.as_str()));
    row.push(non_empty(r.user.as_str()));
    row.push(non_empty(r.cmd.as_str()));
    assert(texts(row@) =~= cells(r@));
    row
}

/// Drop the trailing whitespace of a line.
fn trimmed(line: &String) -> (t: String)
    ensures
        t@ == trim_end(line@),
{
    let v = chars_of(line.as_str());
    let e = trim_end_index(&v, 0, v.len());
    assert(v@.subrange(0, v@.len() as int) =~= v@);
    string_of(&v, 0, e)
}

/// One row of cells, each padded to its column width, two spaces apart,
/// trailing spaces cut.
fn padded_row(cells: &Vec<String>, widths: &Vec<usize>) -> (line: String)
    requires
        cells@.len() == COLUMNS,
        widths@.len() == COLUMNS,
    ensures
        line@ == row_line(texts(cells@), widths@.map_values(|w: usize| w as nat)),
{
    let ghost ws = widths@.map_values(|w: usize| w as nat);
    let ghost parts = Seq::new(COLUMNS as nat, |c: int| padded(texts(cells@)[c], ws[c]));
    let mut line = String::new();
    let mut column: usize = 0;
    assert(parts.take(0) =~= Seq::<Seq<char>>::empty());
    while column < COLUMNS
        invariant
            0 <= column <= COLUMNS,
            cells@.len() == COLUMNS,
            widths@.len() == COLUMNS,
            ws == widths@.map_values(|w: usize| w as nat),
            parts == Seq::new(COLUMNS as nat, |c: int| padded(texts(cells@)[c], ws[c])),
            line@ == join_columns(parts.take(column as int)),
        decreases COLUMNS - column,
    {
        if column > 0 {
            push_char(&mut line, ' ');
            push_char(&mut line, ' ');
        }
        let cell = pad_right(cells[column].as_str(), widths[column]);
        push_str(&mut line, cell.as_str());
        assert(parts.take(column + 1).drop_last() =~= parts.take(column as int));
        if column == 0 {
            assert(line@ =~= join_columns(parts.take(1)));
        } else {
            assert(line@ =~= join_columns(parts.take(column + 1)));
        }
        column = column + 1;
    }
    assert(parts.take(COLUMNS as int) =~= parts);
    trimmed(&line)
}

/// The dashed divider that lines up under the header.
fn divider(widths: &Vec<usize>) -> (line: String)
    requires
        widths@.len() == COLUMNS,
    ensures
        line@ == divider_line(widths@.map_values(|w: usize| w as nat)),
{
    let ghost ws = widths@.map_values(|w: usize| w as nat);
    let ghost parts = Seq::new(COLUMNS as nat, |c: int| Seq::new(ws[c], |i: int| '-'));
    let mut line = String::new();
    let mut column: usize = 0;
    assert(parts.take(0) =~= Seq::<Seq<char>>::empty());
    while column < COLUMNS
        invariant
            0 <= column <= COLUMNS,
            widths@.len() == COLUMNS,
            ws == widths@.map_values(|w: usize| w as nat),
            parts == Seq::new(COLUMNS as nat, |c: int| Seq::new(ws[c], |i: int| '-')),
            line@ == join_columns(parts.take(column as int)),
        decreases COLUMNS - column,
    {
        if column > 0 {
            push_char(&mut line, ' ');
            push_char(&mut line, ' ');
        }
        let ghost before = line@;
        let mut k: usize = 0;
        while k < widths[column]
            invariant
                0 <= k <= widths@[column as int],
                column < COLUMNS,
                widths@.len() == COLUMNS,
                line@ == before + Seq::new(k as nat, |i: int| '-'),
            decreases widths@[column as int] - k,
        {
            push_char(&mut line, '-');
            k = k + 1;
            assert(line@ =~= before + Seq::new(k as nat, |i: int| '-'));
        }
        assert(parts[column as int] =~= Seq::new(k as nat, |i: int| '-'));
        assert(parts.take(column + 1).drop_last() =~= parts.take(column as int));
        if column == 0 {
            assert(line@ =~= join_columns(parts.take(1)));
        } else {
            assert(line@ =~= join_columns(parts.take(column + 1)));
        }
        column = column + 1;
    }
    assert(parts.take(COLUMNS as int) =~= parts);
    trimmed(&line)
}

/// The lines of the table of `records`, in print order: the header, a
/// divider and one aligned row per record; a single message line when there
/// are no records. Column widths are the widest cell of each column, the
/// header included, counted in characters.
pub fn table_lines(records: &[Record]) -> (lines: Vec<String>)
    ensures
        texts(lines@) == table_spec(views(records@)),
{
    let mut lines: Vec<String> = Vec::new();
    if records.len() == 0 {
        lines.push(string_from(&[
            'n', 'o', ' ', 'l', 'i', 's', 't', 'e', 'n', 'i', 'n', 'g', ' ', 'T', 'C', 'P', ' ',
            'p', 'o', 'r', 't', 's', ' ', 'f', 'o', 'u', 'n', 'd', '.',
        ]));
        assert(texts(lines@) =~= table_spec(views(records@)));
        return lines;
    }
    let ghost rows_spec = views(records@).map_values(|r: RecordView| cells(r));
    let mut rows: Vec<Vec<String>> = Vec::new();
    let mut i: usize = 0;
    while i < records.len()
        invariant
            0 <= i <= records@.len(),
            rows_spec == views(records@).map_values(|r: RecordView| cells(r)),
            rows@.len() == i,
            forall|k: int| 0 <= k < i ==> texts(#[trigger] rows@[k]@) == rows_spec[k],
        decreases records.len() - i,
    {
        rows.push(row_cells(&records[i]));
        i = i + 1;
    }
    let header = header_cells();
    let mut widths: Vec<usize> = Vec::new();
    let mut c: usize = 0;
    while c < COLUMNS
        invariant
            0 <= c <= COLUMNS,
            texts(header@) == headers(),
            header@.len() == COLUMNS,
            widths@.len() == c,
            forall|k: int| 0 <= k < c ==> #[trigger] widths@[k] == headers()[k].len(),
        decreases COLUMNS - c,
    {
        let n = chars_of(header[c].as_str()).len();
        assert(header@[c as int]@ == texts(header@)[c as int]);
        widths.push(n);
        c = c + 1;
    }
    assert(rows_spec.take(0) =~= Seq::<Seq<Seq<char>>>::empty());
    let mut r: usize = 0;
    while r < rows.len()
        invariant
            0 <= r <= rows@.len(),
            rows@.len() == records@.len(),
            rows_spec.len() == records@.len(),
            forall|k: int| 0 <= k < rows@.len() ==> texts(#[trigger] rows@[k]@) == rows_spec[k],
            forall|k: int| 0 <= k < rows_spec.len() ==> (#[trigger] rows_spec[k]).len() == COLUMNS,
            widths@.len() == COLUMNS,
            forall|k: int|
                0 <= k < COLUMNS ==> #[trigger] widths@[k] == column_width(
                    rows_spec.take(r as int),
                    k,
                ),
        decreases rows.len() - r,
    {
        let ghost old_widths = widths@;
        assert(rows_spec.take(r + 1).drop_last() =~= rows_spec.take(r as int));
        assert(rows_spec.take(r + 1).last() == rows_spec[r as int]);
        let mut c: usize = 0;
        while c < COLUMNS
            invariant
                0 <= c <= COLUMNS,
                r < rows@.len(),
                widths@.len() == COLUMNS,
                texts(rows@[r as int]@) == rows_spec[r as int],
                rows_spec[r as int].len() == COLUMNS,
                rows@[r as int]@.len() == COLUMNS,
                forall|k: int| c <= k < COLUMNS ==> #[trigger] widths@[k] == old_widths[k],
                forall|k: int|
                    0 <= k < c ==> #[trigger] widths@[k] == (if rows_spec[r as int][k].len()
                        > old_widths[k] {
                        rows_spec[r as int][k].len()
                    } else {
                        old_widths[k] as nat
                    }),
            decreases COLUMNS - c,
        {
            let n = chars_of(rows[r][c].as_str()).len();
            assert(rows@[r as int]@[c as int]@ == texts(rows@[r as int]@)[c as int]);
            if n > widths[c] {
                widths.set(c, n);
            }
            c = c + 1;
        }
        r = r + 1;
    }
    assert(rows_spec.take(rows@.len() as int) =~= rows_spec);
    let ghost ws = widths@.map_values(|w: usize| w as nat);
    assert(ws =~= Seq::new(COLUMNS as nat, |k: int| column_width(rows_spec, k)));
    lines.push(padded_row(&header, &widths));
    lines.push(divider(&widths));
    let mut r: usize = 0;
    while r < rows.len()
        invariant
            0 <= r <= rows@.len(),
            rows@.len() == rows_spec.len(),
            forall|k: int| 0 <= k < rows@.len() ==> texts(#[trigger] rows@[k]@) == rows_spec[k],
            forall|k: int| 0 <= k < rows_spec.len() ==> (#[trigger] rows_spec[k]).len() == COLUMNS,
            widths@.len() == COLUMNS,
            ws == widths@.map_values(|w: usize| w as nat),
            lines@.len() == r + 2,
            texts(lines@) == seq![row_line(headers(), ws), divider_line(ws)] + rows_spec.take(
                r as int,
            ).map_values(|row: Seq<Seq<char>>| row_line(row, ws)),
        decreases rows.len() - r,
    {
        assert(rows@[r as int]@.len() == COLUMNS);
        let line = padded_row(&rows[r], &widths);
        let ghost before = texts(lines@);
        lines.push(line);
        assert(texts(lines@) =~= before.push(line@));
        r = r + 1;
        assert(rows_spec.take(r as int).map_values(|row: Seq<Seq<char>>| row_line(row, ws))
            =~= rows_spec.take(r - 1).map_values(|row: Seq<Seq<char>>| row_line(row, ws)).push(
            row_line(rows_spec[r - 1], ws),
        ));
    }
    assert(rows_spec.take(rows@.len() as int) =~= rows_spec);
    lines
}


proof fn lemma_column_width(rows: Seq<Seq<Seq<char>>>, c: int)
    requires
        0 <= c < COLUMNS,
        forall|r: int| 0 <= r < rows.len() ==> (#[trigger] rows[r]).len() == COLUMNS,
    ensures
        column_width(rows, c) >= headers()[c].len(),
        forall|r: int| 0 <= r < rows.len() ==> column_width(rows, c) >= (#[trigger] rows[r])[c].len(),
        column_width(rows, c) == headers()[c].len() || exists|r: int|
            0 <= r < rows.len() && column_width(rows, c) == (#[trigger] rows[r])[c].len(),
    decreases rows.len(),
{
    if rows.len() > 0 {
        let d = rows.drop_last();
        assert forall|r: int| 0 <= r < d.len() implies (#[trigger] d[r]).len() == COLUMNS by {
            assert(d[r] == rows[r]);
        }
        lemma_column_width(d, c);
        assert forall|r: int| 0 <= r < rows.len() implies column_width(rows, c) >= (
        #[trigger] rows[r])[c].len() by {
            if r < rows.len() - 1 {
                assert(d[r] == rows[r]);
            }
        }
        if column_width(rows, c) != headers()[c].len() {
            if column_width(rows, c) == rows.last()[c].len() {
                assert(rows[rows.len() - 1] == rows.last());
            } else {
                let r = choose|r: int| 0 <= r < d.len() && column_width(d, c) == (#[trigger] d[r])[c].len();
                assert(d[r] == rows[r]);
            }
        }
    }
}

/// A row shows, left to right: protocol, address, the port in decimal, the
/// pid in decimal or `-` when unknown (0), then process, user and command
/// line, each `-` when empty.
pub proof fn law_row_cells(r: RecordView)
    ensures
        cells(r).len() == 7,
        cells(r)[0] == r.proto,
        cells(r)[1] == r.addr,
        cells(r)[2] == dec_nat(r.port as nat),
        cells(r)[3] == (if r.pid == 0 { seq!['-'] } else { dec_int(r.pid as int) }),
        cells(r)[4] == (if r.process.len() == 0 { seq!['-'] } else { r.process }),
        cells(r)[5] == (if r.user.len() == 0 { seq!['-'] } else { r.user }),
        cells(r)[6] == (if r.cmd.len() == 0 { seq!['-'] } else { r.cmd }),
{
}

/// A line of the table is its seven cells, each padded to its column's
/// width, with two spaces between columns and no trailing whitespace.
pub proof fn law_row_layout(row: Seq<Seq<char>>, ws: Seq<nat>)
    requires
        row.len() == 7,
        ws.len() == 7,
    ensures
        row_line(row, ws) == trim_end(
            padded(row[0], ws[0]) + seq![' ', ' '] + padded(row[1], ws[1]) + seq![' ', ' ']
                + padded(row[2], ws[2]) + seq![' ', ' '] + padded(row[3], ws[3]) + seq![' ', ' ']
                + padded(row[4], ws[4]) + seq![' ', ' '] + padded(row[5], ws[5]) + seq![' ', ' ']
                + padded(row[6], ws[6]),
        ),
{
    let ps = Seq::new(COLUMNS as nat, |c: int| padded(row[c], ws[c]));
    let sep = seq![' ', ' '];
    assert(ps.take(1).drop_last() =~= ps.take(0));
    assert(join_columns(ps.take(1)) == ps[0]);
    assert(ps.take(2).drop_last() =~= ps.take(1));
    assert(join_columns(ps.take(2)) == ps[0] + sep + ps[1]);
    assert(ps.take(3).drop_last() =~= ps.take(2));
    assert(join_columns(ps.take(3)) == ps[0] + sep + ps[1] + sep + ps[2]);
    assert(ps.take(4).drop_last() =~= ps.take(3));
    assert(join_columns(ps.take(4)) == ps[0] + sep + ps[1] + sep + ps[2] + sep + ps[3]);
    assert(ps.take(5).drop_last() =~= ps.take(4));
    assert(join_columns(ps.take(5)) == ps[0] + sep + ps[1] + sep + ps[2] + sep + ps[3] + sep
        + ps[4]);
    assert(ps.take(6).drop_last() =~= ps.take(5));
    assert(join_columns(ps.take(6)) == ps[0] + sep + ps[1] + sep + ps[2] + sep + ps[3] + sep
        + ps[4] + sep + ps[5]);
    assert(ps.drop_last() =~= ps.take(6));
    assert(join_columns(ps) == ps[0] + sep + ps[1] + sep + ps[2] + sep + ps[3] + sep + ps[4]
        + sep + ps[5] + sep + ps[6]);
}

/// A padded cell is exactly as wide as its column, or as the cell when the
/// cell is wider, and starts with the cell's text.
pub proof fn law_padded_width(t: Seq<char>, width: nat)
    ensures
        padded(t, width).len() == (if t.len() >= width { t.len() } else { width }),
        padded(t, width).take(t.len() as int) == t,
        forall|i: int| t.len() <= i < padded(t, width).len() ==> padded(t, width)[i] == ' ',
{
    assert(padded(t, width).take(t.len() as int) =~= t);
}

/// The table of a non-empty list of records is a header line, a divider and
/// one line per record, in order, all laid out with the same column widths;
/// each width is the largest character length among the header and every
/// cell of its column.
pub proof fn law_table_columns(rs: Seq<RecordView>)
    requires
        rs.len() > 0,
    ensures
        exists|ws: Seq<nat>|
            {
                &&& ws.len() == COLUMNS
                &&& forall|c: int| 0 <= c < COLUMNS ==> #[trigger] ws[c] >= headers()[c].len()
                &&& forall|r: int, c: int|
                    0 <= r < rs.len() && 0 <= c < COLUMNS ==> ws[c] >= (#[trigger] cells(
                        rs[r],
                    )[c]).len()
                &&& forall|c: int|
                    0 <= c < COLUMNS ==> #[trigger] ws[c] == headers()[c].len() || exists|r: int|
                        0 <= r < rs.len() && ws[c] == (#[trigger] cells(rs[r])[c]).len()
                &&& table_spec(rs) == seq![row_line(headers(), ws), divider_line(ws)]
                    + rs.map_values(|r: RecordView| row_line(cells(r), ws))
            },
{
    let rows = rs.map_values(|r: RecordView| cells(r));
    let ws = Seq::new(COLUMNS as nat, |c: int| column_width(rows, c));
    assert forall|r: int| 0 <= r < rows.len() implies (#[trigger] rows[r]).len() == COLUMNS by {
        assert(rows[r] == cells(rs[r]));
    }
    assert forall|c: int| 0 <= c < COLUMNS implies #[trigger] ws[c] >= headers()[c].len() by {
        lemma_column_width(rows, c);
    }
    assert forall|r: int, c: int| 0 <= r < rs.len() && 0 <= c < COLUMNS implies ws[c] >= (
    #[trigger] cells(rs[r])[c]).len() by {
        lemma_column_width(rows, c);
        assert(rows[r] == cells(rs[r]));
    }
    assert forall|c: int| 0 <= c < COLUMNS implies #[trigger] ws[c] == headers()[c].len()
        || exists|r: int| 0 <= r < rs.len() && ws[c] == (#[trigger] cells(rs[r])[c]).len() by {
        lemma_column_width(rows, c);
        if ws[c] != headers()[c].len() {
            let r = choose|r: int| 0 <= r < rows.len() && column_width(rows, c) == (
            #[trigger] rows[r])[c].len();
            assert(rows[r] == cells(rs[r]));
        }
    }
    assert(rows.map_values(|row: Seq<Seq<char>>| row_line(row, ws)) =~= rs.map_values(
        |r: RecordView| row_line(cells(r), ws),
    ));
    assert({
        &&& ws.len() == COLUMNS
        &&& forall|c: int| 0 <= c < COLUMNS ==> #[trigger] ws[c] >= headers()[c].len()
        &&& forall|r: int, c: int|
            0 <= r < rs.len() && 0 <= c < COLUMNS ==> ws[c] >= (#[trigger] cells(rs[r])[c]).len()
        &&& forall|c: int|
            0 <= c < COLUMNS ==> #[trigger] ws[c] == headers()[c].len() || exists|r: int|
                0 <= r < rs.len() && ws[c] == (#[trigger] cells(rs[r])[c]).len()
        &&& table_spec(rs) == seq![row_line(headers(), ws), divider_line(ws)] + rs.map_values(
            |r: RecordView| row_line(cells(r), ws),
        )
    });
}

} // verus!
