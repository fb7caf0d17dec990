use portspy::record::Record;
use portspy::view::{any_field_contains, filter, sort, SortKey};

fn record(port: u16, pid: i32, process: &str, user: &str) -> Record {
    Record {
        proto: "tcp".to_string(),
        addr: "0.0.0.0".to_string(),
        port,
        state: "LISTEN".to_string(),
        pid,
        process: process.to_string(),
        user: user.to_string(),
        cmd: String::new(),
    }
}

fn sample() -> Vec<Record> {
    vec![
        record(8080, 40, "python3", "root"),
        record(3000, 7, "node", "jr"),
        record(22, 1, "sshd", "root"),
        record(3000, 9, "Node", "amy"),
    ]
}

#[test]
fn from_u32_picks_columns() {
    assert_eq!(SortKey::from_u32(0), SortKey::Port);
    assert_eq!(SortKey::from_u32(1), SortKey::Pid);
    assert_eq!(SortKey::from_u32(2), SortKey::Process);
    assert_eq!(SortKey::from_u32(3), SortKey::User);
    assert_eq!(SortKey::from_u32(99), SortKey::Port);
}

#[test]
fn sort_by_port_ascends_and_is_stable() {
    let mut v = sample();
    sort(&mut v, SortKey::Port);
    let ports: Vec<u16> = v.iter().map(|r| r.port).collect();
    assert_eq!(ports, vec![22, 3000, 3000, 8080]);
    assert_eq!(v[1].pid, 7);
    assert_eq!(v[2].pid, 9);
}

#[test]
fn sort_by_pid() {
    let mut v = sample();
    sort(&mut v, SortKey::Pid);
    let pids: Vec<i32> = v.iter().map(|r| r.pid).collect();
    assert_eq!(pids, vec![1, 7, 9, 40]);
}

#[test]
fn sort_by_process_is_bytewise() {
    let mut v = sample();
    sort(&mut v, SortKey::Process);
    let names: Vec<&str> = v.iter().map(|r| r.process.as_str()).collect();
    assert_eq!(names, vec!["Node", "node", "python3", "sshd"]);
}

#[test]
fn sort_by_user() {
    let mut v = sample();
    sort(&mut v, SortKey::User);
    let users: Vec<&str> = v.iter().map(|r| r.user.as_str()).collect();
    assert_eq!(users, vec!["amy", "jr", "root", "root"]);
    assert_eq!(v[2].port, 8080);
    assert_eq!(v[3].port, 22);
}

#[test]
fn sort_twice_changes_nothing() {
    let mut v = sample();
    sort(&mut v, SortKey::User);
    let once = v.clone();
    sort(&mut v, SortKey::User);
    assert_eq!(v, once);
}

#[test]
fn filter_empty_keeps_all() {
    let v = sample();
    assert_eq!(filter(&v, ""), v);
}

#[test]
fn filter_keeps_matches_in_order() {
    let v = sample();
    let kept = filter(&v, "node");
    assert_eq!(kept.len(), 2);
    assert_eq!(kept[0].pid, 7);
    assert_eq!(kept[1].pid, 9);
}

#[test]
fn filter_is_case_insensitive() {
    let v = sample();
    assert_eq!(filter(&v, "NODE"), filter(&v, "node"));
    assert_eq!(filter(&v, "ROOT").len(), 2);
}

#[test]
fn filter_matches_numbers() {
    let v = sample();
    assert_eq!(filter(&v, "3000").len(), 2);
    assert_eq!(filter(&v, "40").len(), 1);
    assert_eq!(filter(&v, "nothing-like-this").len(), 0);
}

#[test]
fn filter_twice_changes_nothing() {
    let v = sample();
    let once = filter(&v, "root");
    assert_eq!(filter(&once, "root"), once);
}

#[test]
fn filter_does_not_match_across_fields() {
    let v = sample();
    assert_eq!(filter(&v, "tcp 0.0").len(), 0);
    assert_eq!(filter(&v, "node jr").len(), 0);
    assert_eq!(filter(&v, "TCP").len(), 4);
}

#[test]
fn sort_a_slice_part() {
    let mut v = sample();
    sort(&mut v[1..], SortKey::Port);
    let ports: Vec<u16> = v.iter().map(|r| r.port).collect();
    assert_eq!(ports, vec![8080, 22, 3000, 3000]);
}

#[test]
fn any_field_contains_searches_each_field() {
    let fields: Vec<Vec<char>> = vec!["tcp".chars().collect(), "127.0.0.1".chars().collect()];
    let needle = |s: &str| s.chars().collect::<Vec<char>>();
    assert!(any_field_contains(&fields, &needle("0.0")));
    assert!(!any_field_contains(&fields, &needle("tcp 127")));
    assert!(any_field_contains(&fields, &needle("")));
    assert!(!any_field_contains(&Vec::new(), &needle("")));
}
