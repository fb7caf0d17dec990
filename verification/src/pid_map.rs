//! Connect a socket inode to the process that owns it.
//!
//! Under each process, `/proc/<pid>/fd/` holds one symlink per open file
//! descriptor, and a socket's symlink points at the text `socket:[<inode>]`.
//! The walk over `/proc` belongs to the program; the rules for reading what
//! it finds are here.

use vstd::prelude::*;
use std::collections::HashMap;
use crate::record::PID_UNKNOWN;
use crate::text::{
    chars_of, dec_nat, is_white, lemma_parse_dec_nat, parse_signed, parse_signed_range, parse_unsigned, parse_unsigned_range, string_of, trim_end,
    trim_end_index, trim_start, trim_start_index,
};

verus! {

broadcast use vstd::std_specs::hash::group_hash_axioms;

/// The text in front of a socket's inode number.
pub open spec fn socket_prefix() -> Seq<char> {
    seq!['s', 'o', 'c', 'k', 'e', 't', ':', '[']
}

/// The inode named by a descriptor's link target `socket:[<inode>]`; `None`
/// for any target that is not a socket or whose number is not a `u64`.
pub open spec fn socket_inode(t: Seq<char>) -> Option<u64> {
    if t.len() >= 9 && t.take(8) == socket_prefix() && t.last() == ']' {
        match parse_unsigned(t.subrange(8, t.len() - 1), 10, 0xffff_ffff_ffff_ffff) {
            Some(n) => Some(n as u64),
            None => None,
        }
    } else {
        None
    }
}

/// Extract the inode from a link target like `socket:[12345]`; `None` for
/// any target that is not a socket.
pub fn parse_socket_inode(target: &str) -> (r: Option<u64>)
    ensures
        r == socket_inode(target@),
{
    let v = chars_of(target);
    let n = v.len();
    if n < 9 {
        return None;
    }
    let prefix_ok = v[0] == 's' && v[1] == 'o' && v[2] == 'c' && v[3] == 'k' && v[4] == 'e'
        && v[5] == 't' && v[6] == ':' && v[7] == '[';
    if !prefix_ok {
        assert(v@.take(8) != socket_prefix()) by {
            if v@.take(8) == socket_prefix() {
                assert(v@.take(8)[0] == v@[0]);
                assert(v@.take(8)[1] == v@[1]);
                assert(v@.take(8)[2] == v@[2]);
                assert(v@.take(8)[3] == v@[3]);
                assert(v@.take(8)[4] == v@[4]);
                assert(v@.take(8)[5] == v@[5]);
                assert(v@.take(8)[6] == v@[6]);
                assert(v@.take(8)[7] == v@[7]);
            }
        }
        return None;
    }
    assert(v@.take(8) =~= socket_prefix());
    if v[n - 1] != ']' {
        return None;
    }
    parse_unsigned_range(&v, 8, n - 1, 10, 0xffff_ffff_ffff_ffff)
}

/// The pid a `/proc` directory name stands for: names that read as a
/// decimal `i32` (as `str::parse` reads them) are process directories,
/// anything else (`net`, `self`, ...) is not.
pub fn parse_pid(name: &str) -> (pid: Option<i32>)
    ensures
        pid == (match parse_signed(name@, 0x7fff_ffff) {
            Some(n) => Some(n as i32),
            None => None,
        }),
{
    let v = chars_of(name);
    assert(v@.subrange(0, v@.len() as int) =~= v@);
    match parse_signed_range(&v, 0, v.len(), 0x7fff_ffff) {
        Some(n) => Some(n as i32),
        None => None,
    }
}

/// Bound on the processes inspected in one walk over `/proc`.
pub const MAX_PROCESSES: usize = 65_536;

/// Bound on the descriptors inspected for one process.
pub const MAX_FDS_PER_PROCESS: usize = 65_536;

/// What to do with the next entry of the walk over `/proc`.
#[derive(Debug)]
pub enum WalkStep {
    /// The bound on processes is reached: stop the walk.
    Stop,
    /// Not a process directory (or unreadable): go on with the next entry.
    Skip,
    /// A process directory: scan this pid's descriptors.
    Scan(i32),
}

/// The count of processes scanned so far in a walk over `/proc`.
pub struct ProcessWalk {
    pub seen: usize,
}

impl ProcessWalk {
    /// A walk that has scanned nothing yet.
    pub fn new() -> (w: ProcessWalk)
        ensures
            w.seen == 0,
    {
        ProcessWalk { seen: 0 }
    }

    /// Decide about the next entry of `/proc`, given its name (`None` when
    /// the entry or its name could not be read). Once `MAX_PROCESSES` pids
    /// were scanned the walk stops; entries whose name is not a pid are
    /// skipped; a pid is scanned and counted.
    pub fn step(&mut self, name: Option<&str>) -> (s: WalkStep)
        ensures
            old(self).seen >= MAX_PROCESSES ==> s == WalkStep::Stop && final(self).seen
                == old(self).seen,
            old(self).seen < MAX_PROCESSES ==> match name {
                None => s == WalkStep::Skip && final(self).seen == old(self).seen,
                Some(n) => match parse_signed(n@, 0x7fff_ffff) {
                    None => s == WalkStep::Skip && final(self).seen == old(self).seen,
                    Some(pid) => s == WalkStep::Scan(pid as i32) && final(self).seen
                        == old(self).seen + 1,
                },
            },
    {
        if self.seen >= MAX_PROCESSES {
            return WalkStep::Stop;
        }
        match name {
            None => WalkStep::Skip,
            Some(n) => match parse_pid(n) {
                None => WalkStep::Skip,
                Some(pid) => {
                    self.seen = self.seen + 1;
                    WalkStep::Scan(pid)
                },
            },
        }
    }
}

/// The count of descriptors looked at so far for one process.
pub struct FdWalk {
    pub seen: usize,
}

impl FdWalk {
    /// A walk that has looked at no descriptor yet.
    pub fn new() -> (w: FdWalk)
        ensures
            w.seen == 0,
    {
        FdWalk { seen: 0 }
    }

    /// Whether to look at one more descriptor: false once
    /// `MAX_FDS_PER_PROCESS` were looked at; otherwise this one is counted.
    pub fn step(&mut self) -> (go_on: bool)
        ensures
            go_on == (old(self).seen < MAX_FDS_PER_PROCESS),
            final(self).seen == if go_on {
                old(self).seen + 1
            } else {
                old(self).seen as int
            },
    {
        if self.seen >= MAX_FDS_PER_PROCESS {
            return false;
        }
        self.seen = self.seen + 1;
        true
    }
}

/// The table after a descriptor of process `pid` was seen pointing at
/// `target`: a socket's inode gets `pid` as owner unless an earlier process
/// already claimed it.
pub open spec fn noted_owner(table: Map<u64, i32>, target: Seq<char>, pid: i32) -> Map<u64, i32> {
    match socket_inode(target) {
        Some(inode) => if table.contains_key(inode) {
            table
        } else {
            table.insert(inode, pid)
        },
        None => table,
    }
}

/// The link target of a descriptor that points at socket inode `n`.
pub open spec fn socket_target(n: u64) -> Seq<char> {
    seq!['s', 'o', 'c', 'k', 'e', 't', ':', '['] + dec_nat(n as nat) + seq![']']
}

/// A target `socket:[n]` names inode `n`; a target that does not start with
/// `socket:[` and end with `]` names no socket.
pub proof fn law_socket_target(n: u64, t: Seq<char>)
    ensures
        socket_inode(socket_target(n)) == Some(n),
        !(t.len() >= 9 && t.take(8) == seq!['s', 'o', 'c', 'k', 'e', 't', ':', '['] && t.last()
            == ']') ==> socket_inode(t) is None,
{
    let d = dec_nat(n as nat);
    let t2 = socket_target(n);
    lemma_parse_dec_nat(n as nat, 0xffff_ffff_ffff_ffff);
    assert(t2.take(8) =~= socket_prefix());
    assert(t2.subrange(8, t2.len() - 1) =~= d);
    assert(t2.last() == ']');
}

/// The first process seen with a socket stays its owner: a later process
/// with a descriptor on the same socket changes nothing, other sockets keep
/// their owners, and a socket nobody claimed has the unknown pid 0.
pub proof fn law_first_owner_stays(table: Map<u64, i32>, n: u64, first: i32, later: i32, m: u64)
    ensures
        !table.contains_key(n) ==> owner_of(
            noted_owner(noted_owner(table, socket_target(n), first), socket_target(n), later),
            n,
        ) == first,
        table.contains_key(n) ==> owner_of(noted_owner(table, socket_target(n), later), n)
            == table[n],
        m != n ==> owner_of(noted_owner(table, socket_target(n), later), m) == owner_of(table, m),
        !table.contains_key(m) ==> owner_of(table, m) == 0,
{
    law_socket_target(n, socket_target(n));
}

/// Record the owner of the socket a descriptor points at, if it points at
/// one. The first process seen with a socket stays its owner.
pub fn note_socket_owner(table: &mut HashMap<u64, i32>, target: &str, pid: i32)
    ensures
        final(table)@ == noted_owner(old(table)@, target@, pid),
{
    if let Some(inode) = parse_socket_inode(target) {
        if !table.contains_key(&inode) {
            table.insert(inode, pid);
        }
    }
}

/// The pid that owns a socket inode according to the table, or
/// `PID_UNKNOWN`.
pub open spec fn owner_of(table: Map<u64, i32>, inode: u64) -> i32 {
    if table.contains_key(inode) {
        table[inode]
    } else {
        PID_UNKNOWN
    }
}

/// Look a socket inode up in the table.
pub fn owner_pid(table: &HashMap<u64, i32>, inode: u64) -> (pid: i32)
    ensures
        pid == owner_of(table@, inode),
{
    match table.get(&inode) {
        Some(pid) => *pid,
        None => PID_UNKNOWN,
    }
}

/// The short process name from the contents of `/proc/<pid>/comm`: the
/// text without its trailing whitespace.
pub fn process_name(comm: &str) -> (name: String)
    ensures
        name@ == trim_end(comm@),
{
    let v = chars_of(comm);
    let e = trim_end_index(&v, 0, v.len());
    assert(v@.subrange(0, v@.len() as int) =~= v@);
    string_of(&v, 0, e)
}

/// A byte of `/proc/<pid>/cmdline` as a character: the NUL between
/// arguments becomes a space, every other byte the character of that code.
pub open spec fn cmdline_char(b: u8) -> char {
    if b == 0 {
        ' '
    } else {
        (b as u32) as char
    }
}

/// The command line text of the bytes of `/proc/<pid>/cmdline`.
pub open spec fn cmdline_text(bytes: Seq<u8>) -> Seq<char> {
    trim_start(trim_end(bytes.map_values(|b: u8| cmdline_char(b))))
}

/// A process name is the `comm` text without the newline that ends it.
pub proof fn law_process_name_line(name: Seq<char>)
    requires
        name.len() > 0,
        !is_white(name.last()),
    ensures
        trim_end(name.push('\n')) == name,
{
    assert(name.push('\n').drop_last() =~= name);
    assert(is_white(name.push('\n').last()));
    assert(trim_end(name) == name);
}

/// Two arguments, each written with its closing NUL, read as the two
/// arguments with one space between them and nothing after: the NUL
/// between arguments becomes a space and the last one is dropped.
pub proof fn law_command_line_arguments(a: Seq<u8>, b: Seq<u8>)
    requires
        a.len() > 0,
        b.len() > 0,
        forall|i: int| 0 <= i < a.len() ==> a[i] != 0 && !is_white(#[trigger] cmdline_char(a[i])),
        forall|i: int| 0 <= i < b.len() ==> b[i] != 0 && !is_white(#[trigger] cmdline_char(b[i])),
    ensures
        cmdline_text(a + seq![0u8] + b + seq![0u8]) == a.map_values(|x: u8| cmdline_char(x))
            + seq![' '] + b.map_values(|x: u8| cmdline_char(x)),
{
    let bytes = a + seq![0u8] + b + seq![0u8];
    let all = bytes.map_values(|x: u8| cmdline_char(x));
    let ca = a.map_values(|x: u8| cmdline_char(x));
    let cb = b.map_values(|x: u8| cmdline_char(x));
    let body = ca + seq![' '] + cb;
    assert(all =~= body.push(' '));
    assert(all.drop_last() =~= body);
    assert(body.last() == cb.last());
    assert(cb.last() == cmdline_char(b[b.len() - 1]));
    assert(is_white(all.last()));
    assert(trim_end(body) == body);
    assert(trim_end(all) == body);
    assert(body[0] == ca[0]);
    assert(ca[0] == cmdline_char(a[0]));
}

/// The full command line from the bytes of `/proc/<pid>/cmdline`: NUL
/// separators become spaces and surrounding whitespace is dropped.
pub fn command_line(bytes: &[u8]) -> (text: String)
    ensures
        text@ == cmdline_text(bytes@),
{
    let mut chars: Vec<char> = Vec::new();
    let mut i: usize = 0;
    while i < bytes.len()
        invariant
            0 <= i <= bytes@.len(),
            chars@ == bytes@.take(i as int).map_values(|b: u8| cmdline_char(b)),
        decreases bytes.len() - i,
    {
        let byte = bytes[i];
        let c = if byte == 0 {
            ' '
        } else {
            byte as char
        };
        chars.push(c);
        i = i + 1;
        assert(chars@ =~= bytes@.take(i as int).map_values(|b: u8| cmdline_char(b)));
    }
    assert(bytes@.take(bytes@.len() as int) =~= bytes@);
    let e = trim_end_index(&chars, 0, chars.len());
    assert(chars@.subrange(0, chars@.len() as int) =~= chars@);
    let b = trim_start_index(&chars, 0, e);
    string_of(&chars, b, e)
}

} // verus!
