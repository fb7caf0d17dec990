use portspy::cli::{parse_command, show_sudo_note, Command};
use portspy::dashboard::{pack_output, process_text};
use portspy::http::{request_method, request_path, response_header, route, Route};
use portspy::record::Record;
use portspy::table::{format_pid, non_empty, pad_right, table_lines};

fn record(port: u16, pid: i32, process: &str, user: &str, cmd: &str) -> Record {
    Record {
        proto: "tcp".to_string(),
        addr: "127.0.0.1".to_string(),
        port,
        state: "LISTEN".to_string(),
        pid,
        process: process.to_string(),
        user: user.to_string(),
        cmd: cmd.to_string(),
    }
}

#[test]
fn pad_right_pads_to_width() {
    assert_eq!(pad_right("ab", 5), "ab   ");
    assert_eq!(pad_right("abcdef", 3), "abcdef");
    assert_eq!(pad_right("\u{e9}", 2), "\u{e9} ");
}

#[test]
fn format_pid_and_non_empty() {
    assert_eq!(format_pid(0), "-");
    assert_eq!(format_pid(42), "42");
    assert_eq!(non_empty(""), "-");
    assert_eq!(non_empty("x"), "x");
}

#[test]
fn table_of_nothing() {
    assert_eq!(table_lines(&[]), vec!["no listening TCP ports found.".to_string()]);
}

#[test]
fn table_aligns_columns() {
    let lines = table_lines(&[record(3000, 7, "node", "jr", "node a.js"), record(22, 0, "", "", "")]);
    assert_eq!(
        lines,
        vec![
            "PROTO  ADDRESS    PORT  PID  PROCESS  USER  COMMAND".to_string(),
            "-----  ---------  ----  ---  -------  ----  ---------".to_string(),
            "tcp    127.0.0.1  3000  7    node     jr    node a.js".to_string(),
            "tcp    127.0.0.1  22    -    -        -     -".to_string(),
        ]
    );
}

#[test]
fn request_path_cases() {
    assert_eq!(request_path("GET /glue.js HTTP/1.1\r\nHost: x\r\n\r\n"), "/glue.js");
    assert_eq!(request_path(""), "/");
    assert_eq!(request_path("GET"), "/");
    assert_eq!(request_path("\r"), "/");
    assert_eq!(request_path("GET  /x"), "/");
}

#[test]
fn request_method_cases() {
    assert_eq!(request_method("GET / HTTP/1.1\r\n"), "GET");
    assert_eq!(request_method("POST /api/ports HTTP/1.1"), "POST");
    assert_eq!(request_method(""), "");
    assert_eq!(request_method(" / HTTP/1.1"), "");
}

#[test]
fn routes() {
    assert_eq!(route("GET", "/"), Route::Index);
    assert_eq!(route("GET", "/glue.js"), Route::Glue);
    assert_eq!(route("GET", "/portspy.wasm"), Route::Wasm);
    assert_eq!(route("GET", "/api/ports"), Route::Ports);
    assert_eq!(route("GET", "/etc/passwd"), Route::NotFound);
    assert_eq!(route("POST", "/"), Route::NotFound);
    assert_eq!(route("get", "/"), Route::NotFound);
    assert_eq!(route("", "/"), Route::NotFound);
    assert_eq!(Route::NotFound.status(), "404 Not Found");
    assert_eq!(Route::Index.status(), "200 OK");
    assert_eq!(Route::Wasm.content_type(), "application/wasm");
    assert_eq!(Route::Glue.web_file(), Some("glue.js".to_string()));
    assert_eq!(Route::Ports.web_file(), None);
}

#[test]
fn response_header_block() {
    assert_eq!(
        response_header("200 OK", "text/plain; charset=utf-8", 9),
        "HTTP/1.1 200 OK\r\nContent-Type: text/plain; charset=utf-8\r\nContent-Length: 9\r\nConnection: close\r\n\r\n"
    );
}

#[test]
fn process_text_filters_sorts_encodes() {
    let input = "tcp\t::\t8080\tLISTEN\t40\tpython3\troot\tpy\ntcp\t::\t3000\tLISTEN\t7\tnode\tjr\tnode\ntcp\t::\t22\tLISTEN\t1\tsshd\troot\tsshd";
    let out = process_text(input, 0, "ROOT");
    assert_eq!(out, "tcp\t::\t22\tLISTEN\t1\tsshd\troot\tsshd\ntcp\t::\t8080\tLISTEN\t40\tpython3\troot\tpy");
    assert_eq!(process_text(input, 7, "nobody"), "");
}

#[test]
fn pack_output_halves() {
    let packed = pack_output(0x1234, 0x10);
    assert_eq!(packed, 0x0000_0010_0000_1234);
    assert_eq!(packed & 0xffff_ffff, 0x1234);
    assert_eq!(packed >> 32, 0x10);
}

fn args(list: &[&str]) -> Vec<String> {
    list.iter().map(|s| s.to_string()).collect()
}

#[test]
fn commands() {
    assert!(matches!(parse_command(&args(&["portspy"])), Command::Print));
    assert!(matches!(parse_command(&args(&["portspy", "print"])), Command::Print));
    assert!(matches!(parse_command(&args(&["portspy", "serve"])), Command::Serve(7878)));
    assert!(matches!(parse_command(&args(&["portspy", "serve", "9000"])), Command::Serve(9000)));
    match parse_command(&args(&["portspy", "serve", "x"])) {
        Command::InvalidPort(t) => assert_eq!(t, "x"),
        other => panic!("unexpected {:?}", other),
    }
    assert!(matches!(parse_command(&args(&["portspy", "--help"])), Command::Help));
    assert!(matches!(parse_command(&args(&["portspy", "-h"])), Command::Help));
    match parse_command(&args(&["portspy", "frob"])) {
        Command::Unknown(t) => assert_eq!(t, "frob"),
        other => panic!("unexpected {:?}", other),
    }
}

#[test]
fn sudo_note_only_when_needed() {
    let v = vec![record(1, 5, "a", "b", "c"), record(2, 0, "", "", "")];
    assert!(show_sudo_note(&v, false));
    assert!(!show_sudo_note(&v, true));
    assert!(!show_sudo_note(&v[..1], false));
}
