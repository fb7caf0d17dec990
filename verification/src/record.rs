//! One listening socket and the process that owns it.

use vstd::prelude::*;
use crate::text::{dec_int, lemma_parse_dec_int, parse_signed, push_signed_decimal, push_str};

verus! {

/// Upper bound on the number of bytes of any single text field.
pub const MAX_FIELD_LEN: usize = 512;

/// The pid of a socket whose owning process could not be found. Real
/// process ids start at 1.
pub const PID_UNKNOWN: i32 = 0;

/// One row of the output: a single listening port and everything known
/// about it.
#[derive(Debug)]
pub struct Record {
    /// "tcp" for IPv4, "tcp6" for IPv6.
    pub proto: String,
    /// Human-readable local address, e.g. "0.0.0.0" or "::".
    pub addr: String,
    /// The TCP port being listened on.
    pub port: u16,
    /// Socket state; always "LISTEN" for collected sockets.
    pub state: String,
    /// Owning process id, or `PID_UNKNOWN`.
    pub pid: i32,
    /// Short process name, or "" if unknown.
    pub process: String,
    /// Owning user name, or "" if unknown.
    pub user: String,
    /// Full command line, or "" if unknown.
    pub cmd: String,
}

/// What a `Record` holds, with its texts as character sequences.
pub struct RecordView {
    pub proto: Seq<char>,
    pub addr: Seq<char>,
    pub port: u16,
    pub state: Seq<char>,
    pub pid: i32,
    pub process: Seq<char>,
    pub user: Seq<char>,
    pub cmd: Seq<char>,
}

impl View for Record {
    type V = RecordView;

    open spec fn view(&self) -> RecordView {
        RecordView {
            proto: self.proto@,
            addr: self.addr@,
            port: self.port,
            state: self.state@,
            pid: self.pid,
            process: self.process@,
            user: self.user@,
            cmd: self.cmd@,
        }
    }
}

impl Clone for Record {
    fn clone(&self) -> (r: Self)
        ensures
            r@ == self@,
    {
        Record {
            proto: self.proto.clone(),
            addr: self.addr.clone(),
            port: self.port,
            state: self.state.clone(),
            pid: self.pid,
            process: self.process.clone(),
            user: self.user.clone(),
            cmd: self.cmd.clone(),
        }
    }
}

impl PartialEq for Record {
    fn eq(&self, other: &Self) -> (r: bool) {
        self.proto == other.proto && self.addr == other.addr && self.port == other.port
            && self.state == other.state && self.pid == other.pid && self.process == other.process
            && self.user == other.user && self.cmd == other.cmd
    }
}

impl vstd::std_specs::cmp::PartialEqSpecImpl for Record {
    open spec fn obeys_eq_spec() -> bool {
        true
    }

    open spec fn eq_spec(&self, other: &Self) -> bool {
        self@ == other@
    }
}

/// The text `kill_command` gives for a pid.
pub open spec fn kill_command_text(pid: i32) -> Seq<char> {
    if pid == PID_UNKNOWN {
        "unknown pid (try sudo)"@
    } else {
        "kill "@ + dec_int(pid as int)
    }
}

impl Record {
    /// The exact shell command that would free this port, or a hint when
    /// the owning pid is unknown.
    pub fn kill_command(&self) -> (r: String)
        ensures
            r@ == kill_command_text(self.pid),
    {
        let mut out = String::new();
        if self.pid == PID_UNKNOWN {
            push_str(&mut out, "unknown pid (try sudo)");
            return out;
        }
        push_str(&mut out, "kill ");
        push_signed_decimal(&mut out, self.pid as i64);
        out
    }
}

/// The command for a known pid is `kill ` followed by the pid in decimal,
/// which reads back as exactly that pid; for the unknown pid 0 it is the
/// hint `unknown pid (try sudo)`.
pub proof fn law_kill_command(pid: i32)
    ensures
        pid != 0 ==> kill_command_text(pid).take(5) == seq!['k', 'i', 'l', 'l', ' '],
        pid != 0 ==> parse_signed(kill_command_text(pid).skip(5), 0x7fff_ffff) == Some(pid as int),
        pid == 0 ==> kill_command_text(pid) == "unknown pid (try sudo)"@,
{
    reveal_strlit("kill ");
    lemma_parse_dec_int(pid as int, 0x7fff_ffff);
    if pid != 0 {
        assert(kill_command_text(pid).take(5) =~= "kill "@);
        assert(kill_command_text(pid).skip(5) =~= dec_int(pid as int));
    }
}

} // verus!
