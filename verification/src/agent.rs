//! The native agent's join: raw sockets, the inode-to-pid table and what is
//! known about each owner become the records everything else displays.
//!
//! Reading `/proc`, walking descriptors and asking the C library for user
//! names are the program's part; it hands the results here.

use vstd::prelude::*;
use std::collections::HashMap;
use crate::net_tcp::{RawSocket, RawSocketView};
use crate::pid_map::{owner_of, owner_pid};
use crate::record::{Record, RecordView, PID_UNKNOWN};
use crate::text::string_from;
use crate::wire::views;

verus! {

broadcast use vstd::std_specs::hash::group_hash_axioms;

/// True if the effective user id is root's (0). When it is not, some other
/// users' processes cannot be inspected.
pub fn is_root(euid: u32) -> (b: bool)
    ensures
        b == (euid == 0),
{
    euid == 0
}

/// What the program learned about the owner of one socket: the process name
/// and command line (read only when the owning pid is known) and the name of
/// the socket's user.
pub struct Owner {
    pub process: String,
    pub cmd: String,
    pub user: String,
}

/// What an `Owner` holds.
pub struct OwnerView {
    pub process: Seq<char>,
    pub cmd: Seq<char>,
    pub user: Seq<char>,
}

impl View for Owner {
    type V = OwnerView;

    open spec fn view(&self) -> OwnerView {
        OwnerView { process: self.process@, cmd: self.cmd@, user: self.user@ }
    }
}

/// "tcp" and "tcp6" and "LISTEN" as character sequences.
pub open spec fn tcp_text() -> Seq<char> {
    seq!['t', 'c', 'p']
}

pub open spec fn tcp6_text() -> Seq<char> {
    seq!['t', 'c', 'p', '6']
}

pub open spec fn listen_text() -> Seq<char> {
    seq!['L', 'I', 'S', 'T', 'E', 'N']
}

/// The protocol label of a socket: "tcp6" for one from the IPv6 table,
/// "tcp" for one from the IPv4 table.
pub open spec fn proto_of(is_v6: bool) -> Seq<char> {
    if is_v6 {
        tcp6_text()
    } else {
        tcp_text()
    }
}

/// The record of one socket, given its owning pid and what is known about
/// the owner; without a known pid, process and command line stay empty.
pub open spec fn socket_record(s: RawSocketView, pid: i32, o: OwnerView) -> RecordView {
    RecordView {
        proto: proto_of(s.is_v6),
        addr: s.addr,
        port: s.port,
        state: listen_text(),
        pid: pid,
        process: if pid == PID_UNKNOWN { Seq::<char>::empty() } else { o.process },
        user: o.user,
        cmd: if pid == PID_UNKNOWN { Seq::<char>::empty() } else { o.cmd },
    }
}

/// Every record names its socket's family as `tcp6` or `tcp`, is in state
/// `LISTEN`, carries the socket's address, port and user, and has the pid
/// the inode table gives, 0 when the socket has no known owner; only a
/// record with a known pid shows the owner's process name and command line.
pub proof fn law_socket_record(s: RawSocketView, table: Map<u64, i32>, o: OwnerView)
    ensures
        socket_record(s, owner_of(table, s.inode), o).proto == (if s.is_v6 {
            seq!['t', 'c', 'p', '6']
        } else {
            seq!['t', 'c', 'p']
        }),
        socket_record(s, owner_of(table, s.inode), o).state == seq!['L', 'I', 'S', 'T', 'E', 'N'],
        socket_record(s, owner_of(table, s.inode), o).addr == s.addr,
        socket_record(s, owner_of(table, s.inode), o).port == s.port,
        socket_record(s, owner_of(table, s.inode), o).user == o.user,
        table.contains_key(s.inode) ==> socket_record(s, owner_of(table, s.inode), o).pid
            == table[s.inode],
        !table.contains_key(s.inode) ==> socket_record(s, owner_of(table, s.inode), o).pid == 0,
        socket_record(s, owner_of(table, s.inode), o).pid != 0 ==> socket_record(
            s,
            owner_of(table, s.inode),
            o,
        ).process == o.process && socket_record(s, owner_of(table, s.inode), o).cmd == o.cmd,
        socket_record(s, owner_of(table, s.inode), o).pid == 0 ==> socket_record(
            s,
            owner_of(table, s.inode),
            o,
        ).process.len() == 0 && socket_record(s, owner_of(table, s.inode), o).cmd.len() == 0,
{
}

fn proto_for(is_v6: bool) -> (p: String)
    ensures
        p@ == proto_of(is_v6),
{
    if is_v6 {
        string_from(&['t', 'c', 'p', '6'])
    } else {
        string_from(&['t', 'c', 'p'])
    }
}

/// Turn every raw socket into a full record: its owner from the inode
/// table, the owner's details from `owners` (same order as the sockets).
pub fn collect(raw_sockets: &[RawSocket], inode_to_pid: &HashMap<u64, i32>, owners: &[Owner]) -> (records:
    Vec<Record>)
    requires
        owners@.len() == raw_sockets@.len(),
    ensures
        records@.len() == raw_sockets@.len(),
        forall|i: int|
            0 <= i < raw_sockets@.len() ==> #[trigger] views(records@)[i] == socket_record(
                raw_sockets@[i]@,
                owner_of(inode_to_pid@, raw_sockets@[i].inode),
                owners@[i]@,
            ),
{
    let mut records: Vec<Record> = Vec::new();
    let mut i: usize = 0;
    while i < raw_sockets.len()
        invariant
            0 <= i <= raw_sockets@.len(),
            owners@.len() == raw_sockets@.len(),
            records@.len() == i,
            forall|k: int|
                0 <= k < i ==> #[trigger] records@[k]@ == socket_record(
                    raw_sockets@[k]@,
                    owner_of(inode_to_pid@, raw_sockets@[k].inode),
                    owners@[k]@,
                ),
        decreases raw_sockets.len() - i,
    {
        let socket = &raw_sockets[i];
        let owner = &owners[i];
        let pid = owner_pid(inode_to_pid, socket.inode);
        let process;
        let cmd;
        if pid == PID_UNKNOWN {
            process = String::new();
            cmd = String::new();
        } else {
            process = owner.process.clone();
            cmd = owner.cmd.clone();
        }
        let user = owner.user.clone();
        let proto = proto_for(socket.is_v6);
        records.push(
            Record {
                proto,
                addr: socket.addr.clone(),
                port: socket.port,
                state: string_from(&['L', 'I', 'S', 'T', 'E', 'N']),
                pid,
                process,
                user,
                cmd,
            },
        );
        i = i + 1;
    }
    records
}

} // verus!
