use std::collections::HashMap;

use portspy::agent::{collect, is_root, Owner};
use portspy::net_tcp::{decode_ipv4, decode_ipv6, parse_listening, RawSocket};
use portspy::pid_map::{
    command_line, note_socket_owner, owner_pid, parse_pid, parse_socket_inode, process_name,
    FdWalk, ProcessWalk, WalkStep, MAX_FDS_PER_PROCESS, MAX_PROCESSES,
};

const HEADER: &str = "  sl  local_address rem_address   st tx_queue rx_queue tr tm->when retrnsmt   uid  timeout inode\n";

#[test]
fn decode_ipv4_reverses_bytes() {
    assert_eq!(decode_ipv4("0100007F"), "127.0.0.1");
    assert_eq!(decode_ipv4("00000000"), "0.0.0.0");
    assert_eq!(decode_ipv4("0101A8C0"), "192.168.1.1");
}

#[test]
fn decode_ipv4_odd_input() {
    assert_eq!(decode_ipv4("0100007"), "?");
    assert_eq!(decode_ipv4(""), "?");
    assert_eq!(decode_ipv4("zz00007F"), "127.0.0.0");
    assert_eq!(decode_ipv4("+F00007F"), "127.0.0.15");
    assert_eq!(decode_ipv4("a\u{e9}00000"), "?");
    assert_eq!(decode_ipv4("\u{e9}\u{e9}\u{e9}\u{e9}"), "0.0.0.0");
}

#[test]
fn decode_ipv6_forms() {
    assert_eq!(decode_ipv6("00000000000000000000000000000000"), "::");
    assert_eq!(
        decode_ipv6("0000000000000000FFFF00000100007F"),
        "0000:0000:0000:0000:FFFF:0000:0100:007F"
    );
    assert_eq!(decode_ipv6("0000"), "?");
    assert_eq!(decode_ipv6(&format!("000\u{e9}{}", "0".repeat(27))), "?");
}

#[test]
fn parse_listening_reads_a_real_line() {
    let text = format!(
        "{}   0: 0100007F:1538 00000000:0000 0A 00000000:00000000 00:00000000 00000000  1000        0 45678 1 0000000000000000 100 0 0 10 0\n   1: 0100007F:0050 0100007F:9C40 01 00000000:00000000 00:00000000 00000000     0        0 111 1\n",
        HEADER
    );
    let sockets = parse_listening(&text, false);
    assert_eq!(sockets.len(), 1);
    assert_eq!(sockets[0].addr, "127.0.0.1");
    assert_eq!(sockets[0].port, 5432);
    assert_eq!(sockets[0].uid, 1000);
    assert_eq!(sockets[0].inode, 45678);
}

#[test]
fn parse_listening_ipv6() {
    let text = format!(
        "{}   0: 00000000000000000000000000000000:1F90 00000000000000000000000000000000:0000 0A 00000000:00000000 00:00000000 00000000   33        0 99 1 0\r\n",
        HEADER
    );
    let sockets = parse_listening(&text, true);
    assert_eq!(sockets.len(), 1);
    assert_eq!(sockets[0].addr, "::");
    assert_eq!(sockets[0].port, 8080);
    assert_eq!(sockets[0].uid, 33);
    assert_eq!(sockets[0].inode, 99);
    assert!(sockets[0].is_v6);
}

#[test]
fn parse_listening_skips_header_short_and_bad_lines() {
    let text = format!(
        "{}   0: 0100007F:1538 0A\n   1: 0100007F 00000000:0000 0A a b c 1 d 2\n   2: 0100007F:XYZ 00000000:0000 0A a b c 1 d 2\n   3: 0100007F:0016 00000000:0000 0A a b c x d y\n",
        HEADER
    );
    let sockets = parse_listening(&text, false);
    assert_eq!(sockets.len(), 1);
    assert_eq!(sockets[0].port, 22);
    assert_eq!(sockets[0].uid, 0);
    assert_eq!(sockets[0].inode, 0);
    assert_eq!(parse_listening("", false).len(), 0);
    assert_eq!(parse_listening(HEADER, false).len(), 0);
}

#[test]
fn parse_listening_never_fails_on_split_characters() {
    let text = format!("{}   0: a\u{e9}00000:0016 00000000:0000 0A a b c 1 d 2\n", HEADER);
    let sockets = parse_listening(&text, false);
    assert_eq!(sockets.len(), 1);
    assert_eq!(sockets[0].addr, "?");
    assert_eq!(sockets[0].port, 22);
    let text = format!("{}   0: \u{e9}\u{e9}\u{e9}\u{e9}:0016 00000000:0000 0A a b c 1 d 2\n", HEADER);
    let sockets = parse_listening(&text, false);
    assert_eq!(sockets[0].addr, "0.0.0.0");
    assert!(!sockets[0].is_v6);
}

#[test]
fn socket_inode_targets() {
    assert_eq!(parse_socket_inode("socket:[12345]"), Some(12345));
    assert_eq!(parse_socket_inode("pipe:[12345]"), None);
    assert_eq!(parse_socket_inode("socket:[]"), None);
    assert_eq!(parse_socket_inode("socket:[12x]"), None);
    assert_eq!(parse_socket_inode("/dev/null"), None);
}

#[test]
fn first_owner_wins() {
    let mut table: HashMap<u64, i32> = HashMap::new();
    note_socket_owner(&mut table, "socket:[77]", 10);
    note_socket_owner(&mut table, "socket:[77]", 20);
    note_socket_owner(&mut table, "anon_inode:[eventfd]", 30);
    assert_eq!(table.len(), 1);
    assert_eq!(owner_pid(&table, 77), 10);
    assert_eq!(owner_pid(&table, 78), 0);
}

#[test]
fn process_name_trims_newline() {
    assert_eq!(process_name("node\n"), "node");
    assert_eq!(process_name(""), "");
}

#[test]
fn command_line_joins_arguments() {
    assert_eq!(command_line(b"node\0server.js\0--port\03000\0"), "node server.js --port 3000");
    assert_eq!(command_line(b""), "");
    assert_eq!(command_line(&[0xe9, b'a']), "\u{e9}a");
}

#[test]
fn is_root_only_for_zero() {
    assert!(is_root(0));
    assert!(!is_root(1000));
}

fn raw(addr: &str, port: u16, inode: u64, is_v6: bool) -> RawSocket {
    RawSocket { addr: addr.to_string(), port, uid: 1000, inode, is_v6 }
}

fn owner(process: &str, cmd: &str, user: &str) -> Owner {
    Owner { process: process.to_string(), cmd: cmd.to_string(), user: user.to_string() }
}

#[test]
fn collect_joins_owners() {
    let mut table: HashMap<u64, i32> = HashMap::new();
    table.insert(5, 321);
    let sockets = vec![
        raw("127.0.0.1", 3000, 5, false),
        raw("::", 8080, 6, true),
        raw("?", 1, 5, true),
        raw("?", 2, 5, false),
    ];
    let owners = vec![
        owner("node", "node a.js", "jr"),
        owner("x", "y", "root"),
        owner("p", "q", ""),
        owner("p", "q", ""),
    ];
    let records = collect(&sockets, &table, &owners);
    assert_eq!(records.len(), 4);
    assert_eq!(records[0].proto, "tcp");
    assert_eq!(records[0].pid, 321);
    assert_eq!(records[0].process, "node");
    assert_eq!(records[0].cmd, "node a.js");
    assert_eq!(records[0].state, "LISTEN");
    assert_eq!(records[1].proto, "tcp6");
    assert_eq!(records[1].pid, 0);
    assert_eq!(records[1].process, "");
    assert_eq!(records[1].cmd, "");
    assert_eq!(records[1].user, "root");
    assert_eq!(records[2].proto, "tcp6");
    assert_eq!(records[3].proto, "tcp");
}

#[test]
fn process_walk_skips_and_stops() {
    let mut walk = ProcessWalk::new();
    assert!(matches!(walk.step(Some("self")), WalkStep::Skip));
    assert!(matches!(walk.step(None), WalkStep::Skip));
    assert!(matches!(walk.step(Some("42")), WalkStep::Scan(42)));
    assert_eq!(walk.seen, 1);
    walk.seen = MAX_PROCESSES;
    assert!(matches!(walk.step(Some("43")), WalkStep::Stop));
}

#[test]
fn fd_walk_counts_to_the_bound() {
    let mut walk = FdWalk::new();
    assert!(walk.step());
    assert_eq!(walk.seen, 1);
    walk.seen = MAX_FDS_PER_PROCESS;
    assert!(!walk.step());
    assert_eq!(walk.seen, MAX_FDS_PER_PROCESS);
}

#[test]
fn proc_directory_names() {
    assert_eq!(parse_pid("1234"), Some(1234));
    assert_eq!(parse_pid("self"), None);
    assert_eq!(parse_pid("net"), None);
    assert_eq!(parse_pid(""), None);
    assert_eq!(parse_pid("99999999999"), None);
}
