use instance_fleet::http::{Error, HeaderTerminator, Request};
use instance_fleet::rewrite::{HttpProxyConfig, PathOverride};

#[test]
fn test_parse_request() {
    let request_str = "GET / HTTP/1.1\r\nHost: example.com\r\nContent-Length: 10\r\n\r\n";
    let request = Request::new(request_str).unwrap();
    assert_eq!(request.method, "GET");
    assert_eq!(request.path, "/");
    assert_eq!(request.version, "HTTP/1.1");
    assert_eq!(request.headers.len(), 2);
    assert_eq!(request.headers[0].0, "Host");
    assert_eq!(request.headers[0].1, "example.com");
    assert_eq!(request.headers[1].0, "Content-Length");
    assert_eq!(request.headers[1].1, "10");
}

fn parse_error(data: &str) -> &'static str {
    match Request::new(data) {
        Err(Error::ParseError(m)) => m,
        other => panic!("expected a parse error, got {:?}", other),
    }
}

#[test]
fn parse_errors_name_what_is_missing() {
    assert_eq!(parse_error("GET\r\n\r\n"), "Missing path");
    assert_eq!(parse_error("GET /\r\n\r\n"), "Missing version");
    assert_eq!(parse_error("GET / HTTP/1.1\r\nHost example.com\r\n\r\n"), "Malformed header line");
    assert_eq!(parse_error("GET / HTTP/1.1\r\nHost: a"), "Missing empty line");
    assert_eq!(parse_error("GET / HTTP/1.1"), "Missing empty line");
}

#[test]
fn parse_trims_keys_and_values_and_keeps_later_colons() {
    let r = Request::new("POST /x?y HTTP/1.1\r\n  Key :  a:b  \r\n\r\nbody").unwrap();
    assert_eq!(r.method, "POST");
    assert_eq!(r.path, "/x?y");
    assert_eq!(r.headers, vec![("Key".to_string(), "a:b".to_string())]);
}

#[test]
fn parse_version_keeps_further_spaces() {
    let r = Request::new("GET / HTTP/1.1 extra\r\n\r\n").unwrap();
    assert_eq!(r.version, "HTTP/1.1 extra");
    assert!(r.headers.is_empty());
}

#[test]
fn write_then_parse_gives_the_same_request() {
    let data = "GET /a HTTP/1.1\r\nHost:x\r\nAccept:  */*\r\n\r\n";
    let r = Request::new(data).unwrap();
    let wire = r.to_wire();
    assert_eq!(wire, "GET /a HTTP/1.1\r\nHost: x\r\nAccept: */*\r\n\r\n");
    let again = Request::new(&wire).unwrap();
    assert_eq!(again.method, r.method);
    assert_eq!(again.path, r.path);
    assert_eq!(again.version, r.version);
    assert_eq!(again.headers, r.headers);
}

fn rewrite(path: &str, o: PathOverride) -> String {
    let config = HttpProxyConfig::new("h:1").with_path_override(o);
    let data = format!("GET {} HTTP/1.1\r\n\r\n", path);
    config.modify_request(Request::new(&data).unwrap()).unwrap().path
}

#[test]
fn prefix_of_root_path_is_the_prefix_alone() {
    assert_eq!(rewrite("/", PathOverride::Prefix("/X".to_string())), "/X");
    assert_eq!(rewrite("/a", PathOverride::Prefix("/X".to_string())), "/X/a");
}

#[test]
fn append_adds_after_the_path_but_not_after_root() {
    assert_eq!(rewrite("/a", PathOverride::Append("/X".to_string())), "/a/X");
    assert_eq!(rewrite("/a", PathOverride::Append("X".to_string())), "/aX");
    assert_eq!(rewrite("/", PathOverride::Append("/X".to_string())), "/X");
}

#[test]
fn replace_ignores_the_client_path() {
    assert_eq!(rewrite("/anything", PathOverride::Replace("/r".to_string())), "/r");
}

#[test]
fn rewrite_scenario_replaces_path_and_host() {
    let config = HttpProxyConfig::new("h:1")
        .with_path_override(PathOverride::Replace("/devtools/page/abc".to_string()))
        .with_header_override("Host", "h:1");
    let request = Request::new("GET / HTTP/1.1\r\nHost: x\r\n\r\n").unwrap();
    let out = config.modify_request(request).unwrap();
    assert_eq!(out.to_wire(), "GET /devtools/page/abc HTTP/1.1\r\nHost: h:1\r\n\r\n");
    assert_eq!(config.server_addr, "h:1");
}

#[test]
fn overridden_headers_move_to_the_end_in_override_order() {
    let config = HttpProxyConfig::new("s:2")
        .with_header_override("B", "1")
        .with_header_override("A", "2")
        .with_header_override("B", "3");
    assert_eq!(config.overide_headers, vec![("B".to_string(), "3".to_string()), ("A".to_string(), "2".to_string())]);
    let request = Request::new("GET /p HTTP/1.1\r\nA: x\r\nC: y\r\nB: z\r\nD: w\r\n\r\n").unwrap();
    let out = config.modify_request(request).unwrap();
    assert_eq!(out.path, "//p");
    let keys: Vec<&str> = out.headers.iter().map(|h| h.0.as_str()).collect();
    assert_eq!(keys, vec!["C", "D", "B", "A"]);
    assert_eq!(out.headers[2].1, "3");
}

#[test]
fn new_config_forwards_unchanged() {
    let config = HttpProxyConfig::new("s:2");
    assert_eq!(config.connection_count, 0);
    assert!(config.overide_headers.is_empty());
    let out = config.modify_request(Request::new("GET /q HTTP/1.1\r\nH: v\r\n\r\n").unwrap()).unwrap();
    assert_eq!(out.path, "//q");
    assert_eq!(out.headers, vec![("H".to_string(), "v".to_string())]);
}

#[test]
fn terminator_is_seen_exactly_at_the_blank_line() {
    let data = "GET / HTTP/1.1\r\nA: b\r\r\n\r\nrest";
    let mut t = HeaderTerminator::new();
    let mut done_at = None;
    for (i, c) in data.chars().enumerate() {
        if t.push(c) {
            done_at = Some(i);
            break;
        }
    }
    assert_eq!(done_at, Some(data.find("\r\n\r\n").unwrap() + 3));
    let mut t = HeaderTerminator::new();
    assert!(!"\r\n\r\r\n".chars().any(|c| t.push(c)));
}
