//! The dashboard's HTTP rules: which path a request asks for, what answers
//! it, and the header block of a response. The program owns the sockets and
//! the files.

use vstd::prelude::*;
use crate::text::{
    chars_of, dec_nat, lemma_split_concat, lemma_split_no_sep, lemma_split_on_nonempty,
    line_ranges, lines, push_decimal, push_str, range_views, same_text, split_on, split_ranges,
    string_of, strip_cr,
};

verus! {

/// The path of a request: the second space-separated token of its first
/// line, or `/` when there is no first line or that token is missing or
/// empty.
pub open spec fn request_path_spec(text: Seq<char>) -> Seq<char> {
    let ls = lines(text);
    if ls.len() == 0 {
        seq!['/']
    } else {
        let parts = split_on(ls[0], ' ');
        if parts.len() >= 2 && parts[1].len() > 0 {
            parts[1]
        } else {
            seq!['/']
        }
    }
}

/// The method of a request: the first space-separated token of its first
/// line, empty when there is no first line.
pub open spec fn request_method_spec(text: Seq<char>) -> Seq<char> {
    let ls = lines(text);
    if ls.len() == 0 {
        Seq::<char>::empty()
    } else {
        split_on(ls[0], ' ')[0]
    }
}

/// Pull the method out of an HTTP request's first line:
/// `GET /glue.js HTTP/1.1` gives `GET`.
pub fn request_method(request_text: &str) -> (method: String)
    ensures
        method@ == request_method_spec(request_text@),
{
    let v = chars_of(request_text);
    let ls = line_ranges(&v, 0, v.len());
    assert(v@.subrange(0, v@.len() as int) =~= v@);
    if ls.len() == 0 {
        return String::new();
    }
    let (start, end) = ls[0];
    assert(v@.subrange(start as int, end as int) == lines(request_text@)[0]);
    let parts = split_ranges(&v, start, end, ' ');
    proof {
        crate::text::lemma_split_on_nonempty(v@.subrange(start as int, end as int), ' ');
    }
    assert(range_views(v@, parts@)[0] == v@.subrange(parts@[0].0 as int, parts@[0].1 as int));
    string_of(&v, parts[0].0, parts[0].1)
}

/// Pull the path out of an HTTP request's first line:
/// `GET /glue.js HTTP/1.1` gives `/glue.js`; a malformed request (no first
/// line, no path, an empty path) gives `/`.
pub fn request_path(request_text: &str) -> (path: String)
    ensures
        path@ == request_path_spec(request_text@),
{
    let v = chars_of(request_text);
    let ls = line_ranges(&v, 0, v.len());
    assert(v@.subrange(0, v@.len() as int) =~= v@);
    let mut path = String::new();
    if ls.len() == 0 {
        push_str(&mut path, "/");
        proof {
            reveal_strlit("/");
        }
        assert(path@ =~= seq!['/']);
        return path;
    }
    let (start, end) = ls[0];
    assert(v@.subrange(start as int, end as int) == lines(request_text@)[0]);
    let parts = split_ranges(&v, start, end, ' ');
    if parts.len() >= 2 && parts[1].0 < parts[1].1 {
        assert(range_views(v@, parts@)[1] == v@.subrange(parts@[1].0 as int, parts@[1].1 as int));
        string_of(&v, parts[1].0, parts[1].1)
    } else {
        if parts.len() >= 2 {
            assert(range_views(v@, parts@)[1] == v@.subrange(
                parts@[1].0 as int,
                parts@[1].1 as int,
            ));
        }
        push_str(&mut path, "/");
        proof {
            reveal_strlit("/");
        }
        assert(path@ =~= seq!['/']);
        path
    }
}

/// What a request asks for. Only `GET` of these fixed paths is served;
/// nothing from the request ever becomes a file path.
#[derive(Clone, Copy, Debug, PartialEq, Eq, Structural)]
pub enum Route {
    /// `/`: the dashboard page.
    Index,
    /// `/glue.js`: the browser-to-wasm glue.
    Glue,
    /// `/portspy.wasm`: the compiled wasm module.
    Wasm,
    /// `/api/ports`: the live port list, wire-encoded.
    Ports,
    /// Any other request: 404.
    NotFound,
}

/// The route of a request's method and path: the five `GET` requests the
/// dashboard needs, 404 for anything else.
pub open spec fn route_spec(method: Seq<char>, path: Seq<char>) -> Route {
    if method != "GET"@ {
        Route::NotFound
    } else if path == "/"@ {
        Route::Index
    } else if path == "/glue.js"@ {
        Route::Glue
    } else if path == "/portspy.wasm"@ {
        Route::Wasm
    } else if path == "/api/ports"@ {
        Route::Ports
    } else {
        Route::NotFound
    }
}

/// Route on the exact method and path.
pub fn route(method: &str, path: &str) -> (r: Route)
    ensures
        r == route_spec(method@, path@),
{
    if !same_text(method, "GET") {
        Route::NotFound
    } else if same_text(path, "/") {
        Route::Index
    } else if same_text(path, "/glue.js") {
        Route::Glue
    } else if same_text(path, "/portspy.wasm") {
        Route::Wasm
    } else if same_text(path, "/api/ports") {
        Route::Ports
    } else {
        Route::NotFound
    }
}

/// The header block of a response: status line, content type, length,
/// `Connection: close`, and the blank line before the body.
pub open spec fn response_header_spec(status: Seq<char>, content_type: Seq<char>, len: nat) -> Seq<
    char,
> {
    "HTTP/1.1 "@ + status + "\r\nContent-Type: "@ + content_type + "\r\nContent-Length: "@
        + dec_nat(len) + "\r\nConnection: close\r\n\r\n"@
}

/// Build the header block of a complete HTTP response whose body has
/// `body_len` bytes.
pub fn response_header(status: &str, content_type: &str, body_len: usize) -> (h: String)
    ensures
        h@ == response_header_spec(status@, content_type@, body_len as nat),
{
    let mut h = String::new();
    push_str(&mut h, "HTTP/1.1 ");
    push_str(&mut h, status);
    push_str(&mut h, "\r\nContent-Type: ");
    push_str(&mut h, content_type);
    push_str(&mut h, "\r\nContent-Length: ");
    push_decimal(&mut h, body_len as u64);
    push_str(&mut h, "\r\nConnection: close\r\n\r\n");
    assert(h@ =~= response_header_spec(status@, content_type@, body_len as nat));
    h
}


/// The status line text of a route's response.
pub open spec fn status_spec(r: Route) -> Seq<char> {
    match r {
        Route::NotFound => "404 Not Found"@,
        _ => "200 OK"@,
    }
}

/// The content type of a route's response.
pub open spec fn content_type_spec(r: Route) -> Seq<char> {
    match r {
        Route::Index => "text/html; charset=utf-8"@,
        Route::Glue => "text/javascript; charset=utf-8"@,
        Route::Wasm => "application/wasm"@,
        _ => "text/plain; charset=utf-8"@,
    }
}

/// The dashboard file a route serves, if it serves one.
pub open spec fn web_file_spec(r: Route) -> Option<Seq<char>> {
    match r {
        Route::Index => Some("index.html"@),
        Route::Glue => Some("glue.js"@),
        Route::Wasm => Some("portspy.wasm"@),
        _ => None,
    }
}

impl Route {
    /// The status of the response.
    pub fn status(&self) -> (s: String)
        ensures
            s@ == status_spec(*self),
    {
        match self {
            Route::NotFound => "404 Not Found".to_owned(),
            _ => "200 OK".to_owned(),
        }
    }

    /// The content type of the response.
    pub fn content_type(&self) -> (s: String)
        ensures
            s@ == content_type_spec(*self),
    {
        match self {
            Route::Index => "text/html; charset=utf-8".to_owned(),
            Route::Glue => "text/javascript; charset=utf-8".to_owned(),
            Route::Wasm => "application/wasm".to_owned(),
            _ => "text/plain; charset=utf-8".to_owned(),
        }
    }

    /// The name of the dashboard file served, if any; the port list and the
    /// 404 page are not files.
    pub fn web_file(&self) -> (f: Option<String>)
        ensures
            match web_file_spec(*self) {
                Some(n) => f matches Some(x) && x@ == n,
                None => f is None,
            },
    {
        match self {
            Route::Index => Some("index.html".to_owned()),
            Route::Glue => Some("glue.js".to_owned()),
            Route::Wasm => Some("portspy.wasm".to_owned()),
            _ => None,
        }
    }
}


/// Whatever a request says, the only files it can be answered with are the
/// three fixed dashboard files.
pub proof fn law_only_fixed_files(request_text: Seq<char>)
    ensures
        match web_file_spec(
            route_spec(request_method_spec(request_text), request_path_spec(request_text)),
        ) {
            Some(f) => f == "index.html"@ || f == "glue.js"@ || f == "portspy.wasm"@,
            None => true,
        },
{
}

/// Exactly four requests are served, each `GET` of one fixed path: `/` the
/// page, `/glue.js` the glue, `/portspy.wasm` the module and `/api/ports`
/// the port list; any other method or path is answered `404 Not Found`, and
/// every served route is answered `200 OK`.
pub proof fn law_routes(method: Seq<char>, path: Seq<char>)
    ensures
        (route_spec(method, path) == Route::Index) == (method == "GET"@ && path == "/"@),
        (route_spec(method, path) == Route::Glue) == (method == "GET"@ && path == "/glue.js"@),
        (route_spec(method, path) == Route::Wasm) == (method == "GET"@ && path
            == "/portspy.wasm"@),
        (route_spec(method, path) == Route::Ports) == (method == "GET"@ && path
            == "/api/ports"@),
        (route_spec(method, path) == Route::NotFound) == !(method == "GET"@ && (path == "/"@
            || path == "/glue.js"@ || path == "/portspy.wasm"@ || path == "/api/ports"@)),
        (status_spec(route_spec(method, path)) == "404 Not Found"@) == (route_spec(method, path)
            == Route::NotFound),
        (status_spec(route_spec(method, path)) == "200 OK"@) == (route_spec(method, path)
            != Route::NotFound),
{
    reveal_strlit("/");
    reveal_strlit("/glue.js");
    reveal_strlit("/portspy.wasm");
    reveal_strlit("/api/ports");
    reveal_strlit("404 Not Found");
    reveal_strlit("200 OK");
    assert("/"@.len() == 1 && "/glue.js"@.len() == 8 && "/portspy.wasm"@.len() == 13
        && "/api/ports"@.len() == 10);
    assert("404 Not Found"@.len() == 13 && "200 OK"@.len() == 6);
}

/// The method and the path are the first two space-separated tokens of the
/// request line: a request `<method> <path> <version>` followed by CRLF and
/// any headers asks for `<path>` with `<method>`, whatever the headers say.
pub proof fn law_request_line(
    method: Seq<char>,
    path: Seq<char>,
    version: Seq<char>,
    rest: Seq<char>,
)
    requires
        path.len() > 0,
        forall|i: int| 0 <= i < method.len() ==> method[i] != ' ' && method[i] != '\n',
        forall|i: int| 0 <= i < path.len() ==> path[i] != ' ' && path[i] != '\n',
        forall|i: int| 0 <= i < version.len() ==> version[i] != ' ' && version[i] != '\n',
    ensures
        request_method_spec(method + seq![' '] + path + seq![' '] + version + seq!['\r', '\n'] + rest)
            == method,
        request_path_spec(method + seq![' '] + path + seq![' '] + version + seq!['\r', '\n'] + rest)
            == path,
{
    let first = method + seq![' '] + path + seq![' '] + version;
    let line = first + seq!['\r'];
    let text = method + seq![' '] + path + seq![' '] + version + seq!['\r', '\n'] + rest;
    assert(text =~= line + seq!['\n'] + rest);
    assert forall|i: int| 0 <= i < line.len() implies line[i] != '\n' by {
        if i < method.len() {
            assert(line[i] == method[i]);
        } else if i == method.len() {
        } else if i < method.len() + 1 + path.len() {
            assert(line[i] == path[i - method.len() - 1]);
        } else if i == method.len() + 1 + path.len() {
        } else if i < first.len() {
            assert(line[i] == version[i - method.len() - 2 - path.len()]);
        }
    }
    lemma_split_no_sep(line, '\n');
    lemma_split_concat(line, rest, '\n');
    lemma_split_on_nonempty(rest, '\n');
    let p = split_on(text, '\n');
    assert(p[0] == line);
    assert(p.len() >= 2);
    let ls = lines(text);
    assert(ls.len() >= 1);
    assert(ls[0] == strip_cr(line));
    assert(line.drop_last() =~= first);
    assert(ls[0] == first);
    lemma_split_no_sep(method, ' ');
    lemma_split_no_sep(path, ' ');
    lemma_split_no_sep(version, ' ');
    lemma_split_concat(path, version, ' ');
    assert(first =~= method + seq![' '] + (path + seq![' '] + version));
    lemma_split_concat(method, path + seq![' '] + version, ' ');
    assert(split_on(first, ' ') =~= seq![method, path, version]);
}

} // verus!
