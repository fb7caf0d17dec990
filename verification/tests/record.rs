use portspy::record::{Record, MAX_FIELD_LEN, PID_UNKNOWN};

fn with_pid(pid: i32) -> Record {
    Record {
        proto: "tcp".to_string(),
        addr: "0.0.0.0".to_string(),
        port: 80,
        state: "LISTEN".to_string(),
        pid,
        process: String::new(),
        user: String::new(),
        cmd: String::new(),
    }
}

#[test]
fn kill_command_names_the_pid() {
    assert_eq!(with_pid(4242).kill_command(), "kill 4242");
}

#[test]
fn kill_command_without_pid_says_so() {
    assert_eq!(with_pid(PID_UNKNOWN).kill_command(), "unknown pid (try sudo)");
}

#[test]
fn constants() {
    assert_eq!(MAX_FIELD_LEN, 512);
    assert_eq!(PID_UNKNOWN, 0);
}
