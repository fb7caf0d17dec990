use portspy::record::Record;
use portspy::wire::{decode, encode, parse_i32, parse_u16};

fn record(port: u16, pid: i32, process: &str, user: &str) -> Record {
    Record {
        proto: "tcp".to_string(),
        addr: "127.0.0.1".to_string(),
        port,
        state: "LISTEN".to_string(),
        pid,
        process: process.to_string(),
        user: user.to_string(),
        cmd: format!("{} --serve", process),
    }
}

#[test]
fn test_decode() {
    assert_eq!(decode(""), vec![])
}

#[test]
fn test_parse_i32() {
    assert_eq!(parse_i32("2"), 2);
    assert_eq!(parse_i32("-2"), -2);
}

#[test]
fn parse_i32_rejects_garbage_and_overflow() {
    assert_eq!(parse_i32("+7"), 7);
    assert_eq!(parse_i32("-2147483648"), -2147483648);
    assert_eq!(parse_i32("2147483648"), 0);
    assert_eq!(parse_i32("-"), 0);
    assert_eq!(parse_i32("12a"), 0);
    assert_eq!(parse_i32(""), 0);
    assert_eq!(parse_i32("007"), 7);
}

#[test]
fn parse_u16_reads_ports() {
    assert_eq!(parse_u16("3000"), 3000);
    assert_eq!(parse_u16("65535"), 65535);
    assert_eq!(parse_u16("65536"), 0);
    assert_eq!(parse_u16("-1"), 0);
    assert_eq!(parse_u16("+80"), 80);
}

#[test]
fn decode_skips_malformed_lines() {
    assert_eq!(decode("tcp\t127.0.0.1\t3000").len(), 0);
    assert_eq!(decode("a\tb\tc\td\te\tf\tg\th\ti").len(), 0);
    assert_eq!(decode("\n\n").len(), 0);
}

#[test]
fn decode_reads_a_line() {
    let records = decode("tcp\t127.0.0.1\t3000\tLISTEN\t7\tnode\tjr\t");
    assert_eq!(records.len(), 1);
    assert_eq!(records[0].port, 3000);
    assert_eq!(records[0].pid, 7);
    assert_eq!(records[0].process, "node");
    assert_eq!(records[0].user, "jr");
    assert_eq!(records[0].cmd, "");
}

#[test]
fn decode_bad_numbers_read_as_zero() {
    let records = decode("tcp\t::\tport\tLISTEN\tpid\tnode\tjr\tnode x");
    assert_eq!(records.len(), 1);
    assert_eq!(records[0].port, 0);
    assert_eq!(records[0].pid, 0);
}

#[test]
fn encode_writes_fields_and_lines() {
    let text = encode(&[record(3000, 7, "node", "jr"), record(22, -1, "sshd", "root")]);
    assert_eq!(
        text,
        "tcp\t127.0.0.1\t3000\tLISTEN\t7\tnode\tjr\tnode --serve\ntcp\t127.0.0.1\t22\tLISTEN\t-1\tsshd\troot\tsshd --serve"
    );
}

#[test]
fn encode_sanitizes_separators() {
    let mut r = record(80, 1, "web", "www");
    r.cmd = "a\tb\nc\rd".to_string();
    let text = encode(&[r]);
    assert_eq!(text, "tcp\t127.0.0.1\t80\tLISTEN\t1\tweb\twww\ta b c d");
}

#[test]
fn encode_caps_field_length() {
    let mut r = record(80, 1, "web", "www");
    r.cmd = "x".repeat(600);
    let back = decode(&encode(&[r]));
    assert_eq!(back[0].cmd.chars().count(), 512);
}

#[test]
fn encode_caps_field_bytes_not_characters() {
    let mut r = record(80, 1, "web", "www");
    r.cmd = "\u{e9}".repeat(600);
    let back = decode(&encode(&[r]));
    assert_eq!(back[0].cmd, "\u{e9}".repeat(256));
    assert_eq!(back[0].cmd.len(), 512);
    let mut r = record(80, 1, "web", "www");
    r.cmd = format!("{}\u{e9}", "x".repeat(511));
    let back = decode(&encode(&[r]));
    assert_eq!(back[0].cmd, "x".repeat(511));
}

#[test]
fn encode_then_decode_roundtrips() {
    let sent = vec![record(3000, 7, "node", "jr"), record(22, 0, "", ""), record(8080, -5, "python3", "root")];
    assert_eq!(decode(&encode(&sent)), sent);
}

#[test]
fn encode_empty_is_empty() {
    assert_eq!(encode(&[]), "");
}
