//! Parse the kernel's list of TCP sockets (`/proc/net/tcp` and `tcp6`).
//!
//! Each socket is a line of text; the columns that matter are the local
//! address (`IP:PORT`, both hex, the IP in little-endian byte order), the
//! state (`0A` means LISTEN), the owning uid and the socket inode.

use vstd::prelude::*;
use crate::text::{
    byte_len, chars_of, dec_nat, first_index, find_char, lemma_byte_len_grows,
    lemma_byte_len_prefix, line_ranges, lines, or_zero, parse_unsigned, parse_unsigned_range,
    push_char, push_decimal, range_views, ranges_within, utf8_width_of, words, word_ranges,
};

verus! {

/// The character index at which byte offset `b` of `s` starts a character,
/// if it does; slicing a `str` at any other offset panics.
pub open spec fn boundary(s: Seq<char>, b: int) -> Option<int> {
    if exists|i: int| 0 <= i <= s.len() && byte_len(#[trigger] s.take(i)) == b {
        Some(choose|i: int| 0 <= i <= s.len() && byte_len(#[trigger] s.take(i)) == b)
    } else {
        None
    }
}

/// Cutting `s` into `count` slices of `width` bytes hits a character
/// boundary at every cut.
pub open spec fn cuts_ok(s: Seq<char>, width: int, count: int) -> bool {
    forall|j: int| 0 <= j <= count ==> (#[trigger] boundary(s, width * j)) is Some
}

/// Slice `j` of `width` bytes of `s` (bytes `width * j .. width * (j + 1)`).
pub open spec fn byte_chunk(s: Seq<char>, width: int, j: int) -> Seq<char> {
    s.subrange(boundary(s, width * j)->0, boundary(s, width * (j + 1))->0)
}

/// The byte a two-character hex slice reads as, or 0.
pub open spec fn octet(s: Seq<char>) -> nat {
    or_zero(parse_unsigned(s, 16, 255))
}

/// `gs` joined by `sep`.
pub open spec fn join_with(gs: Seq<Seq<char>>, sep: char) -> Seq<char>
    decreases gs.len(),
{
    if gs.len() == 0 {
        Seq::<char>::empty()
    } else if gs.len() == 1 {
        gs[0]
    } else {
        join_with(gs.drop_last(), sep) + seq![sep] + gs.last()
    }
}

/// The text of an IPv4 address written as 8 hex bytes, least significant
/// first: `0100007F` is `127.0.0.1`. A slice that is not a hex byte counts
/// as 0. Text that is not 8 bytes long, or whose 2-byte slices would cut a
/// character, is `?`.
pub open spec fn ipv4_text(s: Seq<char>) -> Seq<char> {
    if byte_len(s) == 8 && cuts_ok(s, 2, 4) {
        dec_nat(octet(byte_chunk(s, 2, 3))) + seq!['.'] + dec_nat(octet(byte_chunk(s, 2, 2)))
            + seq!['.'] + dec_nat(octet(byte_chunk(s, 2, 1))) + seq!['.'] + dec_nat(
            octet(byte_chunk(s, 2, 0)),
        )
    } else {
        seq!['?']
    }
}

/// The eight 4-byte groups of an IPv6 address.
pub open spec fn ipv6_groups(s: Seq<char>) -> Seq<Seq<char>> {
    Seq::new(8, |j: int| byte_chunk(s, 4, j))
}

/// The text of an IPv6 address written as 32 hex characters: `::` when all
/// are `0`, else its eight 4-byte groups joined by `:`. Text that is not 32
/// bytes long, or whose 4-byte groups would cut a character, is `?`.
pub open spec fn ipv6_text(s: Seq<char>) -> Seq<char> {
    if byte_len(s) != 32 {
        seq!['?']
    } else if forall|i: int| 0 <= i < s.len() ==> s[i] == '0' {
        seq![':', ':']
    } else if cuts_ok(s, 4, 8) {
        join_with(ipv6_groups(s), ':')
    } else {
        seq!['?']
    }
}

proof fn lemma_boundary_at(s: Seq<char>, b: int, i: int)
    requires
        0 <= i <= s.len(),
        byte_len(s.take(i)) == b,
    ensures
        boundary(s, b) == Some(i),
{
    let k = choose|k: int| 0 <= k <= s.len() && byte_len(#[trigger] s.take(k)) == b;
    if k < i {
        lemma_byte_len_grows(s, k, i);
    } else if i < k {
        lemma_byte_len_grows(s, i, k);
    }
}

/// The byte offset of every character index of `s`, as long as the text is
/// at most `limit` bytes long; `None` when it is longer.
fn byte_offsets(s: &Vec<char>, limit: usize) -> (r: Option<Vec<usize>>)
    ensures
        r is None <==> byte_len(s@) > limit,
        r matches Some(offs) ==> {
            &&& offs@.len() == s@.len() + 1
            &&& forall|i: int| 0 <= i <= s@.len() ==> offs@[i] == byte_len(#[trigger] s@.take(i))
        },
{
    let mut offs: Vec<usize> = Vec::new();
    offs.push(0);
    assert(s@.take(0) =~= Seq::<char>::empty());
    let mut total: usize = 0;
    let mut i: usize = 0;
    while i < s.len()
        invariant
            0 <= i <= s@.len(),
            total <= limit,
            offs@.len() == i + 1,
            total == byte_len(s@.take(i as int)),
            forall|k: int| 0 <= k <= i ==> offs@[k] == byte_len(#[trigger] s@.take(k)),
        decreases s.len() - i,
    {
        let w = utf8_width_of(s[i]);
        assert(s@.take(i + 1).drop_last() =~= s@.take(i as int));
        if w > limit - total {
            proof {
                lemma_byte_len_prefix(s@, i + 1);
            }
            return None;
        }
        total = total + w;
        i = i + 1;
        offs.push(total);
    }
    assert(s@.take(s@.len() as int) =~= s@);
    Some(offs)
}

/// The character index at which byte offset `b` starts a character.
fn index_at(offs: &Vec<usize>, b: usize) -> (r: Option<usize>)
    ensures
        r matches Some(i) ==> i < offs@.len() && offs@[i as int] == b,
        r is None ==> forall|i: int| 0 <= i < offs@.len() ==> offs@[i] != b,
{
    let mut i: usize = 0;
    while i < offs.len()
        invariant
            0 <= i <= offs@.len(),
            forall|k: int| 0 <= k < i ==> offs@[k] != b,
        decreases offs.len() - i,
    {
        if offs[i] == b {
            return Some(i);
        }
        i = i + 1;
    }
    None
}

/// The character indices of the cuts at `0, width, 2 * width, ...,
/// count * width` bytes, when each falls on a character boundary.
fn cut_indices(s: &Vec<char>, offs: &Vec<usize>, width: usize, count: usize) -> (r: Option<
    Vec<usize>,
>)
    requires
        offs@.len() == s@.len() + 1,
        forall|i: int| 0 <= i <= s@.len() ==> offs@[i] == byte_len(#[trigger] s@.take(i)),
        1 <= width <= 4,
        count <= 8,
    ensures
        r is Some <==> cuts_ok(s@, width as int, count as int),
        r matches Some(cuts) ==> {
            &&& cuts@.len() == count + 1
            &&& forall|j: int|
                0 <= j <= count ==> boundary(s@, width * j) == Some(#[trigger] cuts@[j] as int)
            &&& forall|j: int| 0 <= j <= count ==> #[trigger] cuts@[j] <= s@.len()
            &&& forall|j: int| 0 <= j < count ==> #[trigger] cuts@[j] <= cuts@[j + 1]
        },
{
    let mut cuts: Vec<usize> = Vec::new();
    let mut j: usize = 0;
    while j <= count
        invariant
            offs@.len() == s@.len() + 1,
            forall|i: int| 0 <= i <= s@.len() ==> offs@[i] == byte_len(#[trigger] s@.take(i)),
            1 <= width <= 4,
            count <= 8,
            0 <= j <= count + 1,
            cuts@.len() == j,
            forall|k: int| 0 <= k < j ==> #[trigger] cuts@[k] <= s@.len(),
            forall|k: int| 0 <= k < j ==> offs@[cuts@[k] as int] == width * k,
            forall|k: int| 0 <= k < j - 1 ==> #[trigger] cuts@[k] <= cuts@[k + 1],
            forall|k: int|
                0 <= k < j ==> boundary(s@, width * k) == Some(#[trigger] cuts@[k] as int),
        decreases count + 1 - j,
    {
        assert(width * j <= 32) by (nonlinear_arith)
            requires
                j <= count,
                count <= 8,
                width <= 4,
        ;
        let b = width * j;
        match index_at(offs, b) {
            Some(i) => {
                proof {
                    lemma_boundary_at(s@, b as int, i as int);
                    if j > 0 {
                        let p = cuts@[j - 1] as int;
                        assert(offs@[p] == width * (j - 1));
                        assert(width * (j - 1) < width * j) by (nonlinear_arith)
                            requires
                                width >= 1,
                                j >= 1,
                        ;
                        if i < p {
                            lemma_byte_len_grows(s@, i as int, p);
                        }
                    }
                }
                cuts.push(i);
            },
            None => {
                assert(boundary(s@, width * j) is None);
                assert(!cuts_ok(s@, width as int, count as int));
                return None;
            },
        }
        j = j + 1;
    }
    assert forall|k: int| 0 <= k <= count implies #[trigger] boundary(s@, width * k) is Some by {
        assert(boundary(s@, width * k) == Some(cuts@[k] as int));
    }
    Some(cuts)
}


fn octet_at(v: &Vec<char>, start: usize, end: usize) -> (n: u64)
    requires
        start <= end <= v.len(),
    ensures
        n == octet(v@.subrange(start as int, end as int)),
{
    match parse_unsigned_range(v, start, end, 16, 255) {
        Some(b) => b,
        None => 0,
    }
}

/// The IPv4 text of `v`.
fn ipv4_of(v: &Vec<char>) -> (r: String)
    ensures
        r@ == ipv4_text(v@),
{
    let mut out = String::new();
    let offs = match byte_offsets(v, 8) {
        Some(offs) => offs,
        None => {
            push_char(&mut out, '?');
            assert(out@ =~= seq!['?']);
            return out;
        },
    };
    if offs[v.len()] != 8 {
        assert(v@.take(v@.len() as int) =~= v@);
        push_char(&mut out, '?');
        assert(out@ =~= seq!['?']);
        return out;
    }
    assert(v@.take(v@.len() as int) =~= v@);
    let cuts = match cut_indices(v, &offs, 2, 4) {
        Some(cuts) => cuts,
        None => {
            push_char(&mut out, '?');
            assert(out@ =~= seq!['?']);
            return out;
        },
    };
    assert(byte_chunk(v@, 2, 3) == v@.subrange(cuts@[3] as int, cuts@[4] as int));
    assert(byte_chunk(v@, 2, 2) == v@.subrange(cuts@[2] as int, cuts@[3] as int));
    assert(byte_chunk(v@, 2, 1) == v@.subrange(cuts@[1] as int, cuts@[2] as int));
    assert(byte_chunk(v@, 2, 0) == v@.subrange(cuts@[0] as int, cuts@[1] as int));
    let b3 = octet_at(v, cuts[3], cuts[4]);
    let b2 = octet_at(v, cuts[2], cuts[3]);
    let b1 = octet_at(v, cuts[1], cuts[2]);
    let b0 = octet_at(v, cuts[0], cuts[1]);
    push_decimal(&mut out, b3);
    push_char(&mut out, '.');
    push_decimal(&mut out, b2);
    push_char(&mut out, '.');
    push_decimal(&mut out, b1);
    push_char(&mut out, '.');
    push_decimal(&mut out, b0);
    out
}

/// The IPv6 text of `v`.
fn ipv6_of(v: &Vec<char>) -> (r: String)
    ensures
        r@ == ipv6_text(v@),
{
    let mut out = String::new();
    let offs = match byte_offsets(v, 32) {
        Some(offs) => offs,
        None => {
            push_char(&mut out, '?');
            assert(out@ =~= seq!['?']);
            return out;
        },
    };
    assert(v@.take(v@.len() as int) =~= v@);
    if offs[v.len()] != 32 {
        push_char(&mut out, '?');
        assert(out@ =~= seq!['?']);
        return out;
    }
    let mut all_zero = true;
    let mut i: usize = 0;
    while i < v.len()
        invariant
            0 <= i <= v@.len(),
            all_zero == (forall|k: int| 0 <= k < i ==> v@[k] == '0'),
        decreases v.len() - i,
    {
        if v[i] != '0' {
            all_zero = false;
        }
        i = i + 1;
    }
    if all_zero {
        push_char(&mut out, ':');
        push_char(&mut out, ':');
        assert(out@ =~= seq![':', ':']);
        return out;
    }
    let cuts = match cut_indices(v, &offs, 4, 8) {
        Some(cuts) => cuts,
        None => {
            push_char(&mut out, '?');
            assert(out@ =~= seq!['?']);
            return out;
        },
    };
    let ghost gs = ipv6_groups(v@);
    let mut j: usize = 0;
    while j < 8
        invariant
            0 <= j <= 8,
            cuts@.len() == 9,
            gs == ipv6_groups(v@),
            forall|k: int| 0 <= k <= 8 ==> boundary(v@, 4 * k) == Some(#[trigger] cuts@[k] as int),
            forall|k: int| 0 <= k <= 8 ==> #[trigger] cuts@[k] <= v@.len(),
            forall|k: int| 0 <= k < 8 ==> #[trigger] cuts@[k] <= cuts@[k + 1],
            out@ == join_with(gs.take(j as int), ':'),
        decreases 8 - j,
    {
        if j > 0 {
            push_char(&mut out, ':');
        }
        let a = cuts[j];
        let b = cuts[j + 1];
        assert(cuts@[j as int] <= cuts@[j + 1]);
        let mut k = a;
        let ghost before = out@;
        while k < b
            invariant
                a <= k <= b <= v@.len(),
                out@ == before + v@.subrange(a as int, k as int),
            decreases b - k,
        {
            push_char(&mut out, v[k]);
            k = k + 1;
            assert(out@ =~= before + v@.subrange(a as int, k as int));
        }
        assert(gs[j as int] == v@.subrange(a as int, b as int));
        assert(gs.take(j + 1).drop_last() =~= gs.take(j as int));
        if j == 0 {
            assert(out@ =~= join_with(gs.take(1), ':'));
        }
        j = j + 1;
    }
    assert(gs.take(8) =~= gs);
    out
}

proof fn lemma_join_len(gs: Seq<Seq<char>>, sep: char)
    requires
        gs.len() >= 1,
    ensures
        join_with(gs, sep).len() >= gs.len() - 1,
    decreases gs.len(),
{
    if gs.len() > 1 {
        lemma_join_len(gs.drop_last(), sep);
    }
}

/// An IPv6 address reads as `::` exactly when it is 32 bytes of `0`; any
/// 32-byte address with some other character that cuts into 4-byte groups
/// reads as its eight groups joined by `:`, and anything else as `?`.
pub proof fn law_ipv6_any_address(s: Seq<char>)
    ensures
        ipv6_text(s) == seq![':', ':'] <==> (byte_len(s) == 32 && forall|i: int|
            0 <= i < s.len() ==> s[i] == '0'),
        byte_len(s) == 32 && cuts_ok(s, 4, 8) && (exists|i: int| 0 <= i < s.len() && s[i] != '0')
            ==> ipv6_text(s) == join_with(ipv6_groups(s), ':'),
        byte_len(s) != 32 ==> ipv6_text(s) == seq!['?'],
{
    lemma_join_len(ipv6_groups(s), ':');
    if ipv6_text(s) == seq![':', ':'] {
        assert(seq![':', ':'].len() == 2);
        assert(seq!['?'] != seq![':', ':']) by {
            assert(seq!['?'].len() == 1);
        }
    }
}

/// An IPv4 address reads as four decimal bytes joined by `.`, the byte at
/// the lowest offset last, when it is 8 bytes that cut into 2-byte slices,
/// and as `?` otherwise.
pub proof fn law_ipv4_any_address(s: Seq<char>)
    ensures
        byte_len(s) == 8 && cuts_ok(s, 2, 4) ==> ipv4_text(s) == join_with(
            seq![
                dec_nat(octet(byte_chunk(s, 2, 3))),
                dec_nat(octet(byte_chunk(s, 2, 2))),
                dec_nat(octet(byte_chunk(s, 2, 1))),
                dec_nat(octet(byte_chunk(s, 2, 0))),
            ],
            '.',
        ),
        !(byte_len(s) == 8 && cuts_ok(s, 2, 4)) ==> ipv4_text(s) == seq!['?'],
{
    let g = seq![
        dec_nat(octet(byte_chunk(s, 2, 3))),
        dec_nat(octet(byte_chunk(s, 2, 2))),
        dec_nat(octet(byte_chunk(s, 2, 1))),
        dec_nat(octet(byte_chunk(s, 2, 0))),
    ];
    assert(g.drop_last().drop_last().drop_last() =~= seq![g[0]]);
    assert(g.drop_last().drop_last() =~= seq![g[0], g[1]]);
    assert(g.drop_last() =~= seq![g[0], g[1], g[2]]);
    assert(join_with(seq![g[0]], '.') == g[0]);
    assert(join_with(seq![g[0], g[1]], '.') == g[0] + seq!['.'] + g[1]) by {
        assert(seq![g[0], g[1]].drop_last() =~= seq![g[0]]);
    }
    assert(join_with(seq![g[0], g[1], g[2]], '.') == g[0] + seq!['.'] + g[1] + seq!['.'] + g[2])
        by {
        assert(seq![g[0], g[1], g[2]].drop_last() =~= seq![g[0], g[1]]);
    }
    assert(join_with(g, '.') =~= g[0] + seq!['.'] + g[1] + seq!['.'] + g[2] + seq!['.'] + g[3]);
}

/// Decode an IPv4 address written as 8 hex characters, least significant
/// byte first: `0100007F` is `127.0.0.1`; `?` for anything that is not.
pub fn decode_ipv4(ip_hex: &str) -> (r: String)
    ensures
        r@ == ipv4_text(ip_hex@),
{
    let v = chars_of(ip_hex);
    ipv4_of(&v)
}

/// Decode an IPv6 address written as 32 hex characters: `::` for all
/// zeros, else the eight 4-character groups joined by `:`; `?` for anything
/// that is not 32 bytes long or cannot be cut into 4-byte groups.
pub fn decode_ipv6(ip_hex: &str) -> (r: String)
    ensures
        r@ == ipv6_text(ip_hex@),
{
    let v = chars_of(ip_hex);
    ipv6_of(&v)
}


/// A raw socket parsed straight from the socket table, before its process is
/// known.
pub struct RawSocket {
    /// Human-readable local IP.
    pub addr: String,
    /// Local port.
    pub port: u16,
    /// Owning user id.
    pub uid: u32,
    /// Socket inode; links the socket to an entry under `/proc/<pid>/fd`.
    pub inode: u64,
    /// Whether the socket came from the IPv6 table.
    pub is_v6: bool,
}

/// What a `RawSocket` holds.
pub struct RawSocketView {
    pub addr: Seq<char>,
    pub port: u16,
    pub uid: u32,
    pub inode: u64,
    pub is_v6: bool,
}

impl View for RawSocket {
    type V = RawSocketView;

    open spec fn view(&self) -> RawSocketView {
        RawSocketView {
            addr: self.addr@,
            port: self.port,
            uid: self.uid,
            inode: self.inode,
            is_v6: self.is_v6,
        }
    }
}

/// The views of a list of raw sockets.
pub open spec fn socket_views(s: Seq<RawSocket>) -> Seq<RawSocketView> {
    s.map_values(|x: RawSocket| x@)
}

/// The state column of a listening socket.
pub open spec fn is_listen_state(s: Seq<char>) -> bool {
    s == seq!['0', 'A']
}

/// The socket one line of the table describes, or `None` for a line that
/// is skipped: fewer than 10 columns, a state other than `0A`, no `:` in the
/// local address, or a port that is not a hex `u16`.
pub open spec fn line_socket(line: Seq<char>, is_v6: bool) -> Option<RawSocketView> {
    let cols = words(line);
    if cols.len() < 10 || !is_listen_state(cols[3]) {
        None
    } else {
        match first_index(cols[1], ':') {
            None => None,
            Some(k) => {
                let ip = cols[1].take(k);
                match parse_unsigned(cols[1].skip(k + 1), 16, 65535) {
                    None => None,
                    Some(port) => Some(
                        RawSocketView {
                            addr: if is_v6 {
                                ipv6_text(ip)
                            } else {
                                ipv4_text(ip)
                            },
                            port: port as u16,
                            uid: or_zero(parse_unsigned(cols[7], 10, 0xffff_ffff)) as u32,
                            inode: or_zero(parse_unsigned(cols[9], 10, 0xffff_ffff_ffff_ffff))
                                as u64,
                            is_v6: is_v6,
                        },
                    ),
                }
            },
        }
    }
}

/// The listening sockets of a list of lines, in order.
pub open spec fn sockets_of_lines(ls: Seq<Seq<char>>, is_v6: bool) -> Seq<RawSocketView>
    decreases ls.len(),
{
    if ls.len() == 0 {
        Seq::<RawSocketView>::empty()
    } else {
        let prev = sockets_of_lines(ls.drop_last(), is_v6);
        match line_socket(ls.last(), is_v6) {
            None => prev,
            Some(x) => prev.push(x),
        }
    }
}

/// The listening sockets of a whole table: every line but the first (the
/// column header), in order.
pub open spec fn listening_spec(contents: Seq<char>, is_v6: bool) -> Seq<RawSocketView> {
    let ls = lines(contents);
    if ls.len() == 0 {
        Seq::<RawSocketView>::empty()
    } else {
        sockets_of_lines(ls.drop_first(), is_v6)
    }
}

fn sub_chars(v: &Vec<char>, start: usize, end: usize) -> (r: Vec<char>)
    requires
        start <= end <= v.len(),
    ensures
        r@ == v@.subrange(start as int, end as int),
{
    let mut r: Vec<char> = Vec::new();
    let mut i = start;
    while i < end
        invariant
            start <= i <= end <= v.len(),
            r@ == v@.subrange(start as int, i as int),
        decreases end - i,
    {
        r.push(v[i]);
        i = i + 1;
        assert(r@ =~= v@.subrange(start as int, i as int));
    }
    r
}

/// The socket of the line `v[start..end]`, as `line_socket` describes it.
fn socket_of_line(v: &Vec<char>, start: usize, end: usize, is_v6: bool) -> (r: Option<RawSocket>)
    requires
        start <= end <= v.len(),
    ensures
        match line_socket(v@.subrange(start as int, end as int), is_v6) {
            None => r is None,
            Some(x) => r matches Some(y) && y@ == x,
        },
{
    let ghost line = v@.subrange(start as int, end as int);
    let columns = word_ranges(v, start, end);
    let ghost cols = words(line);
    if columns.len() < 10 {
        return None;
    }
    assert(range_views(v@, columns@)[3] == cols[3]);
    assert(range_views(v@, columns@)[1] == cols[1]);
    assert(range_views(v@, columns@)[7] == cols[7]);
    assert(range_views(v@, columns@)[9] == cols[9]);
    let (s3, e3) = columns[3];
    assert(cols[3] == v@.subrange(s3 as int, e3 as int));
    assert(s3 <= e3);
    if !(e3 - s3 == 2 && v[s3] == '0' && v[s3 + 1] == 'A') {
        assert(!is_listen_state(cols[3])) by {
            if is_listen_state(cols[3]) {
                assert(cols[3][0] == v@[s3 as int]);
                assert(cols[3][1] == v@[s3 + 1]);
            }
        }
        return None;
    }
    assert(cols[3] =~= seq!['0', 'A']);
    let (s1, e1) = columns[1];
    let colon = match find_char(v, s1, e1, ':') {
        Some(c) => c,
        None => return None,
    };
    let ghost k = colon - s1;
    assert(v@.subrange(s1 as int, e1 as int) == cols[1]);
    assert(first_index(cols[1], ':') == Some(k));
    assert(cols[1].take(k) =~= v@.subrange(s1 as int, colon as int));
    assert(cols[1].skip(k + 1) =~= v@.subrange(colon + 1, e1 as int));
    let port = match parse_unsigned_range(v, colon + 1, e1, 16, 65535) {
        Some(p) => p as u16,
        None => return None,
    };
    let ip = sub_chars(v, s1, colon);
    let addr = if is_v6 {
        ipv6_of(&ip)
    } else {
        ipv4_of(&ip)
    };
    let (s7, e7) = columns[7];
    let (s9, e9) = columns[9];
    let uid = match parse_unsigned_range(v, s7, e7, 10, 0xffff_ffff) {
        Some(u) => u as u32,
        None => 0,
    };
    let inode = match parse_unsigned_range(v, s9, e9, 10, 0xffff_ffff_ffff_ffff) {
        Some(n) => n,
        None => 0,
    };
    Some(RawSocket { addr, port, uid, inode, is_v6 })
}

/// Parse the full text of one socket table into its listening sockets, in
/// order. `is_v6` selects how the address column is decoded (4 bytes or 16)
/// and is recorded on every socket. Any text is accepted: lines that do not
/// describe a listening socket are skipped, and an address that cannot be
/// decoded reads as `?`.
pub fn parse_listening(contents: &str, is_v6: bool) -> (r: Vec<RawSocket>)
    ensures
        socket_views(r@) == listening_spec(contents@, is_v6),
{
    let v = chars_of(contents);
    let ranges = line_ranges(&v, 0, v.len());
    assert(v@.subrange(0, v@.len() as int) =~= v@);
    let ghost ls = lines(contents@);
    let mut sockets: Vec<RawSocket> = Vec::new();
    if ranges.len() == 0 {
        return sockets;
    }
    let ghost rest = ls.drop_first();
    let mut i: usize = 1;
    assert(rest.take(0) =~= Seq::<Seq<char>>::empty());
    while i < ranges.len()
        invariant
            1 <= i <= ranges@.len(),
            v@ == contents@,
            ls == lines(contents@),
            rest == ls.drop_first(),
            range_views(v@, ranges@) == ls,
            ranges_within(ranges@, 0, v@.len() as int),
            sockets_of_lines(rest.take(i - 1), is_v6) == socket_views(sockets@),
        decreases ranges.len() - i,
    {
        let (start, end) = ranges[i];
        assert(v@.subrange(start as int, end as int) == rest[i - 1]);
        assert(rest.take(i as int).drop_last() =~= rest.take(i - 1));
        let ghost before = sockets@;
        match socket_of_line(&v, start, end, is_v6) {
            None => {},
            Some(sock) => {
                sockets.push(sock);
                assert(socket_views(sockets@) =~= socket_views(before).push(sock@));
            },
        }
        i = i + 1;
    }
    assert(rest.take(ranges@.len() - 1) =~= rest);
    sockets
}

proof fn lemma_sockets_of_lines(ls: Seq<Seq<char>>, is_v6: bool, x: RawSocketView)
    ensures
        sockets_of_lines(ls, is_v6).contains(x) == exists|i: int|
            0 <= i < ls.len() && line_socket(#[trigger] ls[i], is_v6) == Some(x),
        sockets_of_lines(ls, is_v6).len() <= ls.len(),
    decreases ls.len(),
{
    if ls.len() > 0 {
        let d = ls.drop_last();
        lemma_sockets_of_lines(d, is_v6, x);
        let prev = sockets_of_lines(d, is_v6);
        if exists|i: int| 0 <= i < d.len() && line_socket(#[trigger] d[i], is_v6) == Some(x) {
            let i = choose|i: int| 0 <= i < d.len() && line_socket(#[trigger] d[i], is_v6) == Some(x);
            assert(ls[i] == d[i]);
        }
        if exists|i: int| 0 <= i < ls.len() && line_socket(#[trigger] ls[i], is_v6) == Some(x) {
            let i = choose|i: int| 0 <= i < ls.len() && line_socket(#[trigger] ls[i], is_v6) == Some(x);
            if i < d.len() {
                assert(ls[i] == d[i]);
            } else {
                assert(ls[i] == ls.last());
            }
        }
        match line_socket(ls.last(), is_v6) {
            None => {},
            Some(y) => {
                assert(prev.push(y).contains(x) == (prev.contains(x) || y == x)) by {
                    if prev.push(y).contains(x) {
                        let k = choose|k: int| 0 <= k < prev.push(y).len() && prev.push(y)[k] == x;
                        if k < prev.len() {
                            assert(prev[k] == x);
                        }
                    }
                    if prev.contains(x) {
                        let k = choose|k: int| 0 <= k < prev.len() && prev[k] == x;
                        assert(prev.push(y)[k] == x);
                    }
                    if y == x {
                        assert(prev.push(y)[prev.len() as int] == x);
                    }
                }
            },
        }
    }
}

/// The listening sockets of a table come from its lines after the column
/// header, each line giving at most one; a line gives one only when it has
/// at least ten columns and its state column is `0A` (listening), and the
/// socket carries the address family it was read as.
pub proof fn law_listening_lines(contents: Seq<char>, is_v6: bool, x: RawSocketView, line: Seq<char>)
    ensures
        listening_spec(contents, is_v6).contains(x) == exists|i: int|
            1 <= i < lines(contents).len() && line_socket(#[trigger] lines(contents)[i], is_v6)
                == Some(x),
        listening_spec(contents, is_v6).len() + 1 <= lines(contents).len() || listening_spec(
            contents,
            is_v6,
        ).len() == 0,
        line_socket(line, is_v6) is Some ==> words(line).len() >= 10 && words(line)[3] == seq![
            '0',
            'A',
        ],
        line_socket(line, is_v6) matches Some(y) ==> y.is_v6 == is_v6,
{
    let ls = lines(contents);
    if ls.len() > 0 {
        let rest = ls.drop_first();
        lemma_sockets_of_lines(rest, is_v6, x);
        if exists|i: int| 0 <= i < rest.len() && line_socket(#[trigger] rest[i], is_v6) == Some(x) {
            let i = choose|i: int| 0 <= i < rest.len() && line_socket(#[trigger] rest[i], is_v6) == Some(x);
            assert(ls[i + 1] == rest[i]);
        }
        if exists|i: int| 1 <= i < ls.len() && line_socket(#[trigger] ls[i], is_v6) == Some(x) {
            let i = choose|i: int| 1 <= i < ls.len() && line_socket(#[trigger] ls[i], is_v6) == Some(x);
            assert(rest[i - 1] == ls[i]);
        }
    }
}

} // verus!
