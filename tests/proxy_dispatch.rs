use affogato::proxy::{
    prepare_request, relay_upstream, unreadable_body, upstream_failure, Header, InboundRequest,
};

fn header(name: &str, value: &[u8]) -> Header {
    Header { name: name.as_bytes().to_vec(), value: value.to_vec() }
}

fn request(path: &str, query: Option<&str>, headers: Vec<Header>) -> InboundRequest {
    InboundRequest {
        method: "GET".to_string(),
        path: path.to_string(),
        query: query.map(|q| q.to_string()),
        headers,
    }
}

#[test]
fn forwarded_uri_is_target_path_and_query() {
    let req = request("/p", Some("q=1"), vec![header("proxy-host", b"http://example.com")]);
    let out = prepare_request(&req).ok().unwrap();
    assert_eq!(out.uri, "http://example.com/p?q=1");
    assert_eq!(out.method, "GET");
}

#[test]
fn forwarded_uri_without_query_has_no_question_mark() {
    let req = request("/a/b", None, vec![header("Proxy-Host", b"http://h:8080")]);
    let out = prepare_request(&req).ok().unwrap();
    assert_eq!(out.uri, "http://h:8080/a/b");
}

#[test]
fn missing_target_is_400_and_next_request_still_served() {
    let bad = request("/x", None, vec![header("accept", b"*/*")]);
    let resp = prepare_request(&bad).err().unwrap();
    assert_eq!(resp.status, 400);
    assert_eq!(resp.body, b"Proxy-Host header is missing".to_vec());
    let again = prepare_request(&bad).err().unwrap();
    assert_eq!(again.status, 400);
    let good = request("/x", None, vec![header("proxy-host", b"http://up")]);
    assert_eq!(prepare_request(&good).ok().unwrap().uri, "http://up/x");
}

#[test]
fn non_text_target_is_400() {
    let req = request("/", None, vec![header("proxy-host", b"http://a\x01b")]);
    let resp = prepare_request(&req).err().unwrap();
    assert_eq!(resp.status, 400);
    assert_eq!(resp.body, b"Proxy-Host header is not a valid string".to_vec());
}

#[test]
fn target_header_removed_and_others_kept_in_order() {
    let req = request(
        "/",
        None,
        vec![
            header("accept", b"text/html"),
            header("PROXY-HOST", b"http://first"),
            header("x-trace", b"1"),
            header("proxy-host", b"http://second"),
        ],
    );
    let out = prepare_request(&req).ok().unwrap();
    assert_eq!(out.uri, "http://first/");
    assert_eq!(out.headers.len(), 2);
    assert_eq!(out.headers[0].name, b"accept".to_vec());
    assert_eq!(out.headers[0].value, b"text/html".to_vec());
    assert_eq!(out.headers[1].name, b"x-trace".to_vec());
}

#[test]
fn upstream_status_headers_and_body_are_copied() {
    let r = relay_upstream(418, vec![header("x-a", b"1"), header("x-a", b"2")], b"tea".to_vec());
    assert_eq!(r.status, 418);
    assert_eq!(r.headers.len(), 2);
    assert_eq!(r.headers[1].value, b"2".to_vec());
    assert_eq!(r.body, b"tea".to_vec());
}

#[test]
fn send_failure_is_500_with_detail() {
    let r = upstream_failure("connection refused");
    assert_eq!(r.status, 500);
    assert_eq!(r.body, b"Failed to send request: connection refused".to_vec());
    assert!(r.headers.is_empty());
}

#[test]
fn unreadable_body_is_400() {
    let r = unreadable_body();
    assert_eq!(r.status, 400);
    assert_eq!(r.body, b"Failed to read request body".to_vec());
}
