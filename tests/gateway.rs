use rustkv::gateway::parse_request_line;
use rustkv::Command;

fn show(c: Option<Command>) -> String {
    format!("{:?}", c)
}

#[test]
fn gateway_routes() {
    assert_eq!(
        show(parse_request_line("GET /get/foo HTTP/1.1")),
        show(Some(Command::Get { key: "foo".to_string() }))
    );
    assert_eq!(
        show(parse_request_line("GET /set/foo/bar HTTP/1.1")),
        show(Some(Command::Put { key: "foo".to_string(), value: "bar".to_string() }))
    );
    assert_eq!(
        show(parse_request_line("GET /del/foo HTTP/1.1")),
        show(Some(Command::Delete { key: "foo".to_string() }))
    );
}

#[test]
fn gateway_refuses_other_lines() {
    for line in [
        "",
        "POST /get/foo HTTP/1.1",
        "GET /get/foo",
        "GET /get/foo ",
        "GET /get/ HTTP/1.1",
        "GET /get/a/b HTTP/1.1",
        "GET /set/foo HTTP/1.1",
        "GET /set//bar HTTP/1.1",
        "GET /set/foo/ HTTP/1.1",
        "GET /set/a/b/c HTTP/1.1",
        "GET /put/foo/bar HTTP/1.1",
        "GET /get",
    ] {
        assert!(parse_request_line(line).is_none(), "{}", line);
    }
}
