//! The wire format: how records travel from the native agent to the browser.
//!
//! One record per line (records separated by `\n`), one field per column
//! (fields separated by `\t`), always exactly `FIELD_COUNT` columns in the
//! order: proto, addr, port, state, pid, process, user, cmd.

use vstd::prelude::*;
use crate::record::{Record, RecordView, MAX_FIELD_LEN};
use crate::text::{
    chars_of, dec_int, dec_nat, or_zero, parse_signed, parse_signed_range, parse_unsigned,
    parse_unsigned_range, push_char, push_decimal, push_signed_decimal, range_views, ranges_within,
    split_on, split_ranges, string_of, byte_len, fit_len, lemma_fit_len, lemma_byte_len_bound,
    utf8_width_of, lemma_split_concat, lemma_split_no_sep, lemma_dec_nat_len,
    lemma_parse_dec_nat, lemma_parse_dec_int, lemma_dec_nat, pow10,
};

verus! {

/// Number of columns in every encoded line.
pub const FIELD_COUNT: usize = 8;

/// The views of a list of records.
pub open spec fn views(rs: Seq<Record>) -> Seq<RecordView> {
    rs.map_values(|r: Record| r@)
}

/// A character as it may stand inside a field: the separators and `\r`
/// become a space.
pub open spec fn safe_char(c: char) -> char {
    if c == '\t' || c == '\n' || c == '\r' {
        ' '
    } else {
        c
    }
}

/// What `push_field` writes for a field: its longest prefix of at most
/// `MAX_FIELD_LEN` bytes (never cutting a character), with separators
/// replaced by spaces.
pub open spec fn field_text(s: Seq<char>) -> Seq<char> {
    s.take(fit_len(s, MAX_FIELD_LEN as nat) as int).map_values(|c: char| safe_char(c))
}

/// The line that encodes one record.
pub open spec fn encode_record(r: RecordView) -> Seq<char> {
    field_text(r.proto) + seq!['\t'] + field_text(r.addr) + seq!['\t'] + field_text(
        dec_nat(r.port as nat),
    ) + seq!['\t'] + field_text(r.state) + seq!['\t'] + field_text(dec_int(r.pid as int))
        + seq!['\t'] + field_text(r.process) + seq!['\t'] + field_text(r.user) + seq!['\t']
        + field_text(r.cmd)
}

/// The text that encodes a list of records: their lines joined by `\n`.
pub open spec fn encode_spec(rs: Seq<RecordView>) -> Seq<char>
    decreases rs.len(),
{
    if rs.len() == 0 {
        Seq::<char>::empty()
    } else if rs.len() == 1 {
        encode_record(rs[0])
    } else {
        encode_spec(rs.drop_last()) + seq!['\n'] + encode_record(rs.last())
    }
}

/// The port a field reads as: its decimal `u16` value, or 0.
pub open spec fn port_of(s: Seq<char>) -> u16 {
    or_zero(parse_unsigned(s, 10, 65535)) as u16
}

/// The pid a field reads as: its decimal `i32` value, or 0.
pub open spec fn pid_of(s: Seq<char>) -> i32 {
    match parse_signed(s, 2147483647) {
        Some(v) => v as i32,
        None => 0,
    }
}

/// The record a line decodes to; `None` for an empty line or one without
/// exactly `FIELD_COUNT` columns.
pub open spec fn decode_line(line: Seq<char>) -> Option<RecordView> {
    let f = split_on(line, '\t');
    if line.len() == 0 || f.len() != FIELD_COUNT {
        None
    } else {
        Some(
            RecordView {
                proto: f[0],
                addr: f[1],
                port: port_of(f[2]),
                state: f[3],
                pid: pid_of(f[4]),
                process: f[5],
                user: f[6],
                cmd: f[7],
            },
        )
    }
}

/// The records that a list of lines decodes to, malformed lines skipped.
pub open spec fn decode_lines(ls: Seq<Seq<char>>) -> Seq<RecordView>
    decreases ls.len(),
{
    if ls.len() == 0 {
        Seq::<RecordView>::empty()
    } else {
        let rest = decode_lines(ls.drop_last());
        match decode_line(ls.last()) {
            Some(r) => rest.push(r),
            None => rest,
        }
    }
}

/// The records a text decodes to.
pub open spec fn decode_spec(text: Seq<char>) -> Seq<RecordView> {
    decode_lines(split_on(text, '\n'))
}

/// Append one field: its longest prefix of at most `MAX_FIELD_LEN` bytes,
/// with `\t`, `\n`, `\r` replaced by a space so a field can never break the
/// framing.
fn push_field(out: &mut String, value: &Vec<char>)
    ensures
        final(out)@ == old(out)@ + field_text(value@),
{
    let mut written: usize = 0;
    let mut bytes: usize = 0;
    assert(value@.take(0) =~= Seq::<char>::empty());
    while written < value.len() && utf8_width_of(value[written]) <= MAX_FIELD_LEN - bytes
        invariant
            0 <= written <= value.len(),
            bytes <= MAX_FIELD_LEN,
            bytes == byte_len(value@.take(written as int)),
            out@ == old(out)@ + value@.take(written as int).map_values(|c: char| safe_char(c)),
        decreases value.len() - written,
    {
        let character = value[written];
        let safe = if character == '\t' || character == '\n' || character == '\r' {
            ' '
        } else {
            character
        };
        push_char(out, safe);
        bytes = bytes + utf8_width_of(character);
        written = written + 1;
        assert(value@.take(written as int).drop_last() =~= value@.take(written - 1));
        assert(value@.take(written as int).map_values(|c: char| safe_char(c)) =~= value@.take(
            written - 1,
        ).map_values(|c: char| safe_char(c)).push(safe));
    }
    if written < value.len() {
        assert(value@.take(written + 1).drop_last() =~= value@.take(written as int));
    }
    proof {
        lemma_fit_len(value@, MAX_FIELD_LEN as nat, written as int);
    }
}

/// Append a `String` field.
fn push_string_field(out: &mut String, value: &String)
    ensures
        final(out)@ == old(out)@ + field_text(value@),
{
    let v = chars_of(value.as_str());
    push_field(out, &v);
}

/// Append the line of one record.
fn push_record(out: &mut String, record: &Record)
    ensures
        final(out)@ == old(out)@ + encode_record(record@),
{
    push_string_field(out, &record.proto);
    push_char(out, '\t');
    push_string_field(out, &record.addr);
    push_char(out, '\t');
    let mut port_text = String::new();
    push_decimal(&mut port_text, record.port as u64);
    push_string_field(out, &port_text);
    push_char(out, '\t');
    push_string_field(out, &record.state);
    push_char(out, '\t');
    let mut pid_text = String::new();
    push_signed_decimal(&mut pid_text, record.pid as i64);
    push_string_field(out, &pid_text);
    push_char(out, '\t');
    push_string_field(out, &record.process);
    push_char(out, '\t');
    push_string_field(out, &record.user);
    push_char(out, '\t');
    push_string_field(out, &record.cmd);
    assert(out@ =~= old(out)@ + encode_record(record@));
}

/// Turn a list of records into one text blob: one line per record, lines
/// joined by `\n`, fields joined by `\t`.
pub fn encode(records: &[Record]) -> (out: String)
    ensures
        out@ == encode_spec(views(records@)),
{
    let mut out = String::new();
    let mut index: usize = 0;
    while index < records.len()
        invariant
            0 <= index <= records@.len(),
            out@ == encode_spec(views(records@.take(index as int))),
        decreases records.len() - index,
    {
        if index > 0 {
            push_char(&mut out, '\n');
        }
        push_record(&mut out, &records[index]);
        let ghost done = views(records@.take(index as int));
        index = index + 1;
        let ghost now = views(records@.take(index as int));
        assert(now.drop_last() =~= done);
        assert(now.last() == records@[index - 1]@);
        if index == 1 {
            assert(done =~= Seq::<RecordView>::empty());
        }
        assert(out@ =~= encode_spec(now));
    }
    assert(records@.take(records.len() as int) =~= records@);
    out
}

/// Parse a port; anything that is not a decimal `u16` reads as 0.
pub fn parse_u16(text: &str) -> (r: u16)
    ensures
        r == port_of(text@),
{
    let v = chars_of(text);
    assert(v@.subrange(0, v.len() as int) =~= v@);
    parse_u16_chars(&v, 0, v.len())
}

/// Parse a pid; anything that is not a decimal `i32` reads as 0
/// (`PID_UNKNOWN`).
pub fn parse_i32(text: &str) -> (r: i32)
    ensures
        r == pid_of(text@),
{
    let v = chars_of(text);
    assert(v@.subrange(0, v.len() as int) =~= v@);
    parse_i32_chars(&v, 0, v.len())
}

fn parse_u16_chars(v: &Vec<char>, start: usize, end: usize) -> (r: u16)
    requires
        start <= end <= v.len(),
    ensures
        r == port_of(v@.subrange(start as int, end as int)),
{
    match parse_unsigned_range(v, start, end, 10, 65535) {
        Some(n) => n as u16,
        None => 0,
    }
}

fn parse_i32_chars(v: &Vec<char>, start: usize, end: usize) -> (r: i32)
    requires
        start <= end <= v.len(),
    ensures
        r == pid_of(v@.subrange(start as int, end as int)),
{
    match parse_signed_range(v, start, end, 2147483647) {
        Some(n) => n as i32,
        None => 0,
    }
}

/// Turn a text blob back into records. Empty lines and lines without
/// exactly `FIELD_COUNT` columns are skipped.
pub fn decode(text: &str) -> (records: Vec<Record>)
    ensures
        views(records@) == decode_spec(text@),
{
    let v = chars_of(text);
    let lines = split_ranges(&v, 0, v.len(), '\n');
    assert(v@.subrange(0, v.len() as int) =~= v@);
    let ghost ls = split_on(text@, '\n');
    let mut records: Vec<Record> = Vec::new();
    let mut i: usize = 0;
    while i < lines.len()
        invariant
            0 <= i <= lines@.len(),
            v@ == text@,
            ls == split_on(text@, '\n'),
            range_views(v@, lines@) == ls,
            ranges_within(lines@, 0, v@.len() as int),
            views(records@) == decode_lines(ls.take(i as int)),
        decreases lines.len() - i,
    {
        let (start, end) = lines[i];
        let ghost line = v@.subrange(start as int, end as int);
        assert(line == ls[i as int]);
        assert(ls.take(i + 1).drop_last() =~= ls.take(i as int));
        assert(ls.take(i + 1).last() == line);
        i = i + 1;
        if start == end {
            continue;
        }
        let fields = split_ranges(&v, start, end, '\t');
        if fields.len() != FIELD_COUNT {
            continue;
        }
        let ghost f = split_on(line, '\t');
        assert(range_views(v@, fields@)[0] == f[0]);
        let record = Record {
            proto: string_of(&v, fields[0].0, fields[0].1),
            addr: string_of(&v, fields[1].0, fields[1].1),
            port: parse_u16_chars(&v, fields[2].0, fields[2].1),
            state: string_of(&v, fields[3].0, fields[3].1),
            pid: parse_i32_chars(&v, fields[4].0, fields[4].1),
            process: string_of(&v, fields[5].0, fields[5].1),
            user: string_of(&v, fields[6].0, fields[6].1),
            cmd: string_of(&v, fields[7].0, fields[7].1),
        };
        let ghost before = records@;
        records.push(record);
        assert(views(records@) =~= views(before).push(record@));
    }
    assert(ls.take(lines@.len() as int) =~= ls);
    records
}


// ---------------------------------------------------------------------------
// What survives a trip over the wire
// ---------------------------------------------------------------------------

/// `s` holds none of the characters that frame the format.
pub open spec fn no_framing(s: Seq<char>) -> bool {
    forall|i: int| 0 <= i < s.len() ==> s[i] != '\t' && s[i] != '\n' && s[i] != '\r'
}

/// A text field can travel unchanged: at most `MAX_FIELD_LEN` bytes and
/// free of framing.
pub open spec fn plain_field(s: Seq<char>) -> bool {
    byte_len(s) <= MAX_FIELD_LEN && no_framing(s)
}

/// Every text field of the record can travel unchanged.
pub open spec fn plain_record(r: RecordView) -> bool {
    plain_field(r.proto) && plain_field(r.addr) && plain_field(r.state) && plain_field(r.process)
        && plain_field(r.user) && plain_field(r.cmd)
}

/// A record as the receiving side sees it: every text field cut and cleaned
/// as `field_text` does, numbers unchanged.
pub open spec fn sanitize(r: RecordView) -> RecordView {
    RecordView {
        proto: field_text(r.proto),
        addr: field_text(r.addr),
        port: r.port,
        state: field_text(r.state),
        pid: r.pid,
        process: field_text(r.process),
        user: field_text(r.user),
        cmd: field_text(r.cmd),
    }
}

proof fn lemma_field_text_clean(s: Seq<char>)
    ensures
        no_framing(field_text(s)),
{
}

proof fn lemma_field_text_plain(s: Seq<char>)
    requires
        plain_field(s),
    ensures
        field_text(s) == s,
{
    assert(field_text(s) =~= s);
}

proof fn lemma_number_fields(r: RecordView)
    ensures
        field_text(dec_nat(r.port as nat)) == dec_nat(r.port as nat),
        field_text(dec_int(r.pid as int)) == dec_int(r.pid as int),
        port_of(dec_nat(r.port as nat)) == r.port,
        pid_of(dec_int(r.pid as int)) == r.pid,
{
    reveal_with_fuel(pow10, 11);
    assert(pow10(5) == 100000);
    assert(pow10(10) == 10000000000);
    lemma_dec_nat_len(r.port as nat, 5);
    lemma_dec_nat(r.port as nat);
    lemma_digit_text_plain(dec_nat(r.port as nat));
    let m: nat = if r.pid < 0 { (-(r.pid as int)) as nat } else { r.pid as nat };
    lemma_dec_nat_len(m, 10);
    lemma_dec_nat(m);
    lemma_digit_text_plain(dec_nat(m));
    if r.pid < 0 {
        assert forall|i: int| 0 <= i < dec_int(r.pid as int).len() implies dec_int(
            r.pid as int,
        )[i] != '\t' && dec_int(r.pid as int)[i] != '\n' && dec_int(r.pid as int)[i] != '\r' by {
            if i > 0 {
                assert(dec_int(r.pid as int)[i] == dec_nat(m)[i - 1]);
            }
        }
        lemma_byte_len_bound(dec_int(r.pid as int));
        lemma_field_text_plain(dec_int(r.pid as int));
    }
    lemma_parse_dec_nat(r.port as nat, 65535);
    lemma_parse_dec_int(r.pid as int, 2147483647);
}

proof fn lemma_digit_text_plain(s: Seq<char>)
    requires
        s.len() <= 10,
        crate::text::all_digits(s, 10),
    ensures
        field_text(s) == s,
{
    assert forall|i: int| 0 <= i < s.len() implies s[i] != '\t' && s[i] != '\n' && s[i] != '\r' by {
        assert(crate::text::digit_val(s[i]) < 10);
    }
    lemma_byte_len_bound(s);
    lemma_field_text_plain(s);
}

/// The line of a record splits back into its eight fields.
proof fn lemma_encode_record(r: RecordView)
    ensures
        encode_record(r).len() > 0,
        forall|i: int| 0 <= i < encode_record(r).len() ==> encode_record(r)[i] != '\n',
        decode_line(encode_record(r)) == Some(sanitize(r)),
{
    lemma_number_fields(r);
    let f0 = field_text(r.proto);
    let f1 = field_text(r.addr);
    let f2 = field_text(dec_nat(r.port as nat));
    let f3 = field_text(r.state);
    let f4 = field_text(dec_int(r.pid as int));
    let f5 = field_text(r.process);
    let f6 = field_text(r.user);
    let f7 = field_text(r.cmd);
    lemma_field_text_clean(r.proto);
    lemma_field_text_clean(r.addr);
    lemma_field_text_clean(dec_nat(r.port as nat));
    lemma_field_text_clean(r.state);
    lemma_field_text_clean(dec_int(r.pid as int));
    lemma_field_text_clean(r.process);
    lemma_field_text_clean(r.user);
    lemma_field_text_clean(r.cmd);
    let t = seq!['\t'];
    let a1 = f0;
    let a2 = a1 + t + f1;
    let a3 = a2 + t + f2;
    let a4 = a3 + t + f3;
    let a5 = a4 + t + f4;
    let a6 = a5 + t + f5;
    let a7 = a6 + t + f6;
    let a8 = a7 + t + f7;
    assert(a8 =~= encode_record(r));
    lemma_split_no_sep(f0, '\t');
    lemma_split_no_sep(f1, '\t');
    lemma_split_no_sep(f2, '\t');
    lemma_split_no_sep(f3, '\t');
    lemma_split_no_sep(f4, '\t');
    lemma_split_no_sep(f5, '\t');
    lemma_split_no_sep(f6, '\t');
    lemma_split_no_sep(f7, '\t');
    lemma_split_concat(a1, f1, '\t');
    lemma_split_concat(a2, f2, '\t');
    lemma_split_concat(a3, f3, '\t');
    lemma_split_concat(a4, f4, '\t');
    lemma_split_concat(a5, f5, '\t');
    lemma_split_concat(a6, f6, '\t');
    lemma_split_concat(a7, f7, '\t');
    let fs = split_on(a8, '\t');
    assert(fs =~= seq![f0, f1, f2, f3, f4, f5, f6, f7]);
    assert(a8.len() >= 7);
    assert forall|i: int| 0 <= i < a8.len() implies a8[i] != '\n' by {
        assert(a8 == a7 + t + f7);
        if i >= a7.len() + 1 {
            assert(a8[i] == f7[i - a7.len() - 1]);
        } else if i < a7.len() {
            assert(a8[i] == a7[i]);
            assert(a7 == a6 + t + f6);
            if i >= a6.len() + 1 {
                assert(a7[i] == f6[i - a6.len() - 1]);
            } else if i < a6.len() {
                assert(a7[i] == a6[i]);
                assert(a6 == a5 + t + f5);
                if i >= a5.len() + 1 {
                    assert(a6[i] == f5[i - a5.len() - 1]);
                } else if i < a5.len() {
                    assert(a6[i] == a5[i]);
                    assert(a5 == a4 + t + f4);
                    if i >= a4.len() + 1 {
                        assert(a5[i] == f4[i - a4.len() - 1]);
                    } else if i < a4.len() {
                        assert(a5[i] == a4[i]);
                        assert(a4 == a3 + t + f3);
                        if i >= a3.len() + 1 {
                            assert(a4[i] == f3[i - a3.len() - 1]);
                        } else if i < a3.len() {
                            assert(a4[i] == a3[i]);
                            assert(a3 == a2 + t + f2);
                            if i >= a2.len() + 1 {
                                assert(a3[i] == f2[i - a2.len() - 1]);
                            } else if i < a2.len() {
                                assert(a3[i] == a2[i]);
                                assert(a2 == a1 + t + f1);
                                if i >= a1.len() + 1 {
                                    assert(a2[i] == f1[i - a1.len() - 1]);
                                } else if i < a1.len() {
                                    assert(a2[i] == a1[i]);
                                }
                            }
                        }
                    }
                }
            }
        }
    }
}

proof fn lemma_split_encode(rs: Seq<RecordView>)
    requires
        rs.len() >= 1,
    ensures
        split_on(encode_spec(rs), '\n') == rs.map_values(|r: RecordView| encode_record(r)),
    decreases rs.len(),
{
    lemma_encode_record(rs.last());
    lemma_split_no_sep(encode_record(rs.last()), '\n');
    if rs.len() == 1 {
        assert(split_on(encode_spec(rs), '\n') =~= rs.map_values(|r: RecordView| encode_record(r)));
    } else {
        lemma_split_encode(rs.drop_last());
        lemma_split_concat(encode_spec(rs.drop_last()), encode_record(rs.last()), '\n');
        assert(split_on(encode_spec(rs), '\n') =~= rs.map_values(|r: RecordView| encode_record(r)));
    }
}

proof fn lemma_decode_encoded_lines(rs: Seq<RecordView>)
    ensures
        decode_lines(rs.map_values(|r: RecordView| encode_record(r))) == rs.map_values(
            |r: RecordView| sanitize(r),
        ),
    decreases rs.len(),
{
    let ls = rs.map_values(|r: RecordView| encode_record(r));
    if rs.len() == 0 {
        assert(rs.map_values(|r: RecordView| sanitize(r)) =~= Seq::<RecordView>::empty());
    } else {
        lemma_decode_encoded_lines(rs.drop_last());
        assert(ls.drop_last() =~= rs.drop_last().map_values(|r: RecordView| encode_record(r)));
        lemma_encode_record(rs.last());
        assert(rs.map_values(|r: RecordView| sanitize(r)) =~= rs.drop_last().map_values(
            |r: RecordView| sanitize(r),
        ).push(sanitize(rs.last())));
    }
}

/// Decoding what was encoded gives back every record, in order, each with
/// its text fields cut to their longest prefix of at most `MAX_FIELD_LEN`
/// bytes and `\t`, `\n`, `\r` turned into spaces.
pub proof fn law_decode_encode(rs: Seq<RecordView>)
    ensures
        decode_spec(encode_spec(rs)) == rs.map_values(|r: RecordView| sanitize(r)),
{
    if rs.len() == 0 {
        let e = encode_spec(rs);
        assert(decode_line(Seq::<char>::empty()) is None);
        assert(split_on(e, '\n') =~= seq![Seq::<char>::empty()]);
        assert(split_on(e, '\n').drop_last() =~= Seq::<Seq<char>>::empty());
        assert(split_on(e, '\n').last() =~= Seq::<char>::empty());
        assert(decode_lines(Seq::<Seq<char>>::empty()) =~= Seq::<RecordView>::empty());
        assert(decode_spec(e) =~= Seq::<RecordView>::empty());
        assert(rs.map_values(|r: RecordView| sanitize(r)) =~= Seq::<RecordView>::empty());
    } else {
        lemma_split_encode(rs);
        lemma_decode_encoded_lines(rs);
    }
}

/// Records whose text fields are at most `MAX_FIELD_LEN` bytes and free of
/// `\t`, `\n` and `\r` come back from the wire exactly as they were sent.
pub proof fn law_plain_records_round_trip(rs: Seq<RecordView>)
    requires
        forall|i: int| 0 <= i < rs.len() ==> plain_record(#[trigger] rs[i]),
    ensures
        decode_spec(encode_spec(rs)) == rs,
{
    law_decode_encode(rs);
    assert forall|i: int| 0 <= i < rs.len() implies #[trigger] sanitize(rs[i]) == rs[i] by {
        lemma_field_text_plain(rs[i].proto);
        lemma_field_text_plain(rs[i].addr);
        lemma_field_text_plain(rs[i].state);
        lemma_field_text_plain(rs[i].process);
        lemma_field_text_plain(rs[i].user);
        lemma_field_text_plain(rs[i].cmd);
    }
    assert(rs.map_values(|r: RecordView| sanitize(r)) =~= rs);
}

/// On the wire a record is one line of its eight fields in this order,
/// separated by tabs: protocol, address, port in decimal, state, pid in
/// decimal, process, user, command line; the lines of a list of records are
/// joined by `\n`, with no `\n` after the last.
pub proof fn law_wire_layout(r: RecordView, rs: Seq<RecordView>)
    requires
        plain_record(r),
    ensures
        encode_spec(seq![r]) == r.proto + seq!['\t'] + r.addr + seq!['\t'] + dec_nat(r.port as nat)
            + seq!['\t'] + r.state + seq!['\t'] + dec_int(r.pid as int) + seq!['\t'] + r.process
            + seq!['\t'] + r.user + seq!['\t'] + r.cmd,
        rs.len() > 0 ==> encode_spec(rs.push(r)) == encode_spec(rs) + seq!['\n'] + encode_spec(
            seq![r],
        ),
{
    lemma_field_text_plain(r.proto);
    lemma_field_text_plain(r.addr);
    lemma_field_text_plain(r.state);
    lemma_field_text_plain(r.process);
    lemma_field_text_plain(r.user);
    lemma_field_text_plain(r.cmd);
    lemma_number_fields(r);
    if rs.len() > 0 {
        assert(rs.push(r).drop_last() =~= rs);
        assert(rs.push(r).last() == r);
    }
}

/// Re-encoding what was decoded and decoding again keeps the number of
/// records: the format is stable under a round trip.
pub proof fn law_decode_reencode_count(text: Seq<char>)
    ensures
        decode_spec(encode_spec(decode_spec(text))).len() == decode_spec(text).len(),
{
    law_decode_encode(decode_spec(text));
}

} // verus!
