use simple_file_server::http::request::{
    HttpHeader, HttpRequest, Method, Resource, Version, VersionError,
};

fn error_of(request: &str) -> VersionError {
    match Version::new(request) {
        Ok(version) => panic!("unexpected version {:?}", version),
        Err(error) => error,
    }
}

#[test]
fn version_is_read_from_the_request_line() {
    assert_eq!(Version::new("GET / HTTP/1.1\r\n\r\n").unwrap(), Version::V1_1);
    assert_eq!(Version::new("GET / HTTP/2\r\n\r\n").unwrap(), Version::V2_0);
    assert_eq!(Version::new("GET / HTTP/2.0\r\n\r\n").unwrap(), Version::V2_0);
}

#[test]
fn version_tokens_are_parted_by_any_ascii_white_space() {
    assert_eq!(Version::new("GET\t/\tHTTP/1.1\r\n").unwrap(), Version::V1_1);
    assert_eq!(Version::new("  GET   /   HTTP/2.0  \r\n").unwrap(), Version::V2_0);
    assert_eq!(Version::new("HTTP/1.1\r\n").unwrap(), Version::V1_1);
    assert_eq!(Version::new("GET / x\x0cHTTP/2\r\n").unwrap(), Version::V2_0);
}

#[test]
fn first_version_token_wins() {
    assert_eq!(Version::new("HTTP/2 / HTTP/1.1\r\n").unwrap(), Version::V2_0);
    assert_eq!(Version::new("GET HTTP/1.1 HTTP/2\r\n").unwrap(), Version::V1_1);
}

#[test]
fn version_needs_a_whole_token() {
    assert!(Version::new("GET / HTTP/1.10\r\n").is_err());
    assert!(Version::new("GET / xHTTP/1.1\r\n").is_err());
    assert!(Version::new("GET / HTTP/1.0\r\n").is_err());
    assert!(Version::new("GET / http/1.1\r\n").is_err());
    assert!(Version::new("GET / HTTP/1.1\u{a0}\r\n").is_err());
}

#[test]
fn version_is_sought_in_the_first_line_only() {
    assert!(Version::new("GET /\r\nHTTP/1.1\r\n").is_err());
    assert!(Version::new("\r\nGET / HTTP/1.1\r\n").is_err());
}

#[test]
fn version_fails_without_a_line_end() {
    let error = error_of("GET / HTTP/1.1");
    assert_eq!(error.to_string(), "Unknown Protocol version in GET / HTTP/1.1");
    assert!(Version::new("").is_err());
    assert!(Version::new("GET / HTTP/1.1\n").is_err());
}

#[test]
fn version_error_echoes_the_request() {
    let error = error_of("GET / FTP\r\nHost: x\r\n\r\n");
    assert_eq!(
        error.to_string(),
        "Unknown Protocol version in GET / FTP\r\nHost: x\r\n\r\n"
    );
}

#[test]
fn version_parses_from_a_str() {
    assert_eq!("GET / HTTP/1.1\r\n".parse::<Version>().unwrap(), Version::V1_1);
    assert!("GET /".parse::<Version>().is_err());
}

#[test]
fn version_text() {
    assert_eq!(Version::V1_1.to_string(), "HTTP/1.1");
    assert_eq!(Version::V2_0.to_string(), "HTTP/2");
    assert_eq!(Version::V1_1.as_str(), "HTTP/1.1");
    assert_eq!(Version::V2_0.as_str(), "HTTP/2");
}

#[test]
fn version_of_a_single_token() {
    let chars: Vec<char> = "HTTP/2.0".chars().collect();
    assert_eq!(Version::from_token(&chars), Some(Version::V2_0));
    let chars: Vec<char> = "HTTP/3".chars().collect();
    assert_eq!(Version::from_token(&chars), None);
    assert_eq!(Version::from_token(&[]), None);
}

#[test]
fn method_is_the_token_before_the_first_space() {
    assert_eq!(Method::new("GET / HTTP/1.1\r\n\r\n"), Method::Get);
    assert_eq!(Method::new("POST /form HTTP/1.1\r\n\r\n"), Method::Post);
    assert_eq!(Method::new("PUT / HTTP/1.1\r\n\r\n"), Method::Uninitialized);
    assert_eq!(Method::new("get / HTTP/1.1\r\n\r\n"), Method::Uninitialized);
    assert_eq!(Method::new(" GET / HTTP/1.1\r\n\r\n"), Method::Uninitialized);
    assert_eq!(Method::new("GET\t/ HTTP/1.1\r\n"), Method::Uninitialized);
}

#[test]
fn method_of_a_text_without_a_line_is_none() {
    assert_eq!(Method::new("GET / HTTP/1.1"), Method::Uninitialized);
    assert_eq!(Method::new(""), Method::Uninitialized);
    assert_eq!(Method::new("GET\r\n"), Method::Uninitialized);
    assert_eq!(Method::new("\r\nGET / HTTP/1.1\r\n"), Method::Uninitialized);
}

#[test]
fn identify_names_the_method() {
    assert_eq!(Method::identify("GET"), Method::Get);
    assert_eq!(Method::identify("POST"), Method::Post);
    assert_eq!(Method::identify("DELETE"), Method::Uninitialized);
    assert_eq!(Method::identify("GET "), Method::Uninitialized);
    assert_eq!(Method::identify(""), Method::Uninitialized);
}

#[test]
fn resource_is_the_target_without_one_leading_slash() {
    let resource = Resource::new("GET /foo/bar HTTP/1.1\r\nHost: x\r\n\r\n").unwrap();
    assert_eq!(resource.path, "foo/bar");
    let resource = Resource::new("POST /submit HTTP/2\r\n\r\n").unwrap();
    assert_eq!(resource.path, "submit");
    let resource = Resource::new("GET / HTTP/1.1\r\n\r\n").unwrap();
    assert_eq!(resource.path, "");
    let resource = Resource::new("GET index.html HTTP/1.1\r\n\r\n").unwrap();
    assert_eq!(resource.path, "index.html");
}

#[test]
fn resource_loses_exactly_one_slash() {
    let resource = Resource::new("GET //etc/passwd HTTP/1.1\r\n\r\n").unwrap();
    assert_eq!(resource.path, "/etc/passwd");
    let resource = Resource::new("GET /a/ HTTP/1.1\r\n\r\n").unwrap();
    assert_eq!(resource.path, "a/");
}

#[test]
fn resource_ends_at_the_next_space() {
    let resource = Resource::new("GET  /x HTTP/1.1\r\n\r\n").unwrap();
    assert_eq!(resource.path, "");
    let resource = Resource::new("GET /a b c\r\n\r\n").unwrap();
    assert_eq!(resource.path, "a");
    let resource = Resource::new("GET /caf\u{e9}/\u{1f600} HTTP/1.1\r\n\r\n").unwrap();
    assert_eq!(resource.path, "caf\u{e9}/\u{1f600}");
}

#[test]
fn resource_is_absent_for_other_methods() {
    assert!(Resource::new("PUT /foo HTTP/1.1\r\n\r\n").is_none());
    assert!(Resource::new("get /foo HTTP/1.1\r\n\r\n").is_none());
}

#[test]
fn resource_is_absent_where_the_line_has_too_few_parts() {
    assert!(Resource::new("GET /foo\r\n\r\n").is_none());
    assert!(Resource::new("GET\r\n\r\n").is_none());
    assert!(Resource::new("GET /foo HTTP/1.1").is_none());
    assert!(Resource::new("").is_none());
}

#[test]
fn resource_bounds_in_the_characters() {
    let chars: Vec<char> = "GET /foo/bar HTTP/1.1\r\n".chars().collect();
    assert_eq!(Resource::locate(&chars), Some((5, 12)));
    let chars: Vec<char> = "GET foo HTTP/1.1\r\n".chars().collect();
    assert_eq!(Resource::locate(&chars), Some((4, 7)));
    let chars: Vec<char> = "HEAD /foo HTTP/1.1\r\n".chars().collect();
    assert_eq!(Resource::locate(&chars), None);
}

#[test]
fn headers_of_a_block() {
    let headers = HttpHeader::new("GET / HTTP/1.1\r\nA: 1\r\nB:2\r\n\r\n").unwrap();
    assert_eq!(headers.len(), 2);
    assert_eq!(headers.get("A").unwrap(), "1");
    assert_eq!(headers.get("B").unwrap(), "2");
    assert!(headers.get("C").is_none());
    assert!(headers.get("a").is_none());
}

#[test]
fn one_line_without_a_colon_leaves_no_headers() {
    assert!(HttpHeader::new("GET / HTTP/1.1\r\nA: 1\r\nbroken\r\nB: 2\r\n\r\n").is_none());
    assert!(HttpHeader::new("GET / HTTP/1.1\r\nbroken\r\n\r\n").is_none());
    assert!(HttpHeader::new("GET / HTTP/1.1\r\nA: 1\r\nbroken").is_none());
}

#[test]
fn headers_stop_at_the_first_empty_line() {
    let headers = HttpHeader::new("GET / HTTP/1.1\r\nA: 1\r\n\r\nno colon here\r\nB: 2\r\n").unwrap();
    assert_eq!(headers.len(), 1);
    assert_eq!(headers.get("A").unwrap(), "1");
    assert!(headers.get("B").is_none());
    let headers = HttpHeader::new("GET / HTTP/1.1\r\n\r\nA: 1\r\n").unwrap();
    assert_eq!(headers.len(), 0);
}

#[test]
fn a_later_header_replaces_an_earlier_one() {
    let headers = HttpHeader::new("GET / HTTP/1.1\r\nA: 1\r\nB: 2\r\nA: 3\r\n\r\n").unwrap();
    assert_eq!(headers.len(), 2);
    assert_eq!(headers.get("A").unwrap(), "3");
    assert_eq!(headers.get("B").unwrap(), "2");
}

#[test]
fn headers_part_at_the_first_colon_and_are_trimmed() {
    let headers = HttpHeader::new(
        "GET / HTTP/1.1\r\nHost: localhost:5500\r\n  Accept \t:\t text/html  \r\n\r\n",
    )
    .unwrap();
    assert_eq!(headers.get("Host").unwrap(), "localhost:5500");
    assert_eq!(headers.get("Accept").unwrap(), "text/html");
    let headers = HttpHeader::new("GET / HTTP/1.1\r\n\u{a0}A\u{2003}:\u{3000}1\u{85}\r\n\r\n").unwrap();
    assert_eq!(headers.get("A").unwrap(), "1");
    let headers = HttpHeader::new("GET / HTTP/1.1\r\n:\r\n\r\n").unwrap();
    assert_eq!(headers.len(), 1);
    assert_eq!(headers.get("").unwrap(), "");
}

#[test]
fn a_last_line_without_an_end_is_a_header() {
    let headers = HttpHeader::new("GET / HTTP/1.1\r\nA: 1\r\nB: 2").unwrap();
    assert_eq!(headers.len(), 2);
    assert_eq!(headers.get("B").unwrap(), "2");
    let headers = HttpHeader::new("GET / HTTP/1.1\r\n").unwrap();
    assert_eq!(headers.len(), 0);
}

#[test]
fn a_lone_line_feed_ends_no_line() {
    let headers = HttpHeader::new("GET / HTTP/1.1\r\nA: 1\nB: 2\r\n\r\n").unwrap();
    assert_eq!(headers.len(), 1);
    assert_eq!(headers.get("A").unwrap(), "1\nB: 2");
}

#[test]
fn headers_need_a_request_line() {
    assert!(HttpHeader::new("A: 1").is_none());
    assert!(HttpHeader::new("").is_none());
}

#[test]
fn no_headers() {
    let headers = HttpHeader::empty();
    assert_eq!(headers.len(), 0);
    assert!(headers.get("A").is_none());
}

#[test]
fn a_request_holds_all_its_parts() {
    let request = HttpRequest::new(
        "POST /submit/form HTTP/1.1\r\nHost: localhost\r\nContent-Length: 5\r\n\r\nhello",
    )
    .unwrap();
    assert_eq!(request.method(), Method::Post);
    assert_eq!(request.version(), Version::V1_1);
    assert_eq!(request.target(), "submit/form");
    assert_eq!(request.resource.path, "submit/form");
    assert_eq!(request.headers().len(), 2);
    assert_eq!(request.headers().get("Host").unwrap(), "localhost");
    assert_eq!(request.headers().get("Content-Length").unwrap(), "5");
    assert_eq!(request.body(), "hello");
    assert_eq!(request.request_body, "hello");
}

#[test]
fn the_body_starts_after_the_first_empty_line() {
    let request = HttpRequest::new("GET / HTTP/1.1\r\n\r\nfirst\r\n\r\nsecond").unwrap();
    assert_eq!(request.body(), "first\r\n\r\nsecond");
    let request = HttpRequest::new("GET / HTTP/1.1\r\nA: 1\r\n").unwrap();
    assert_eq!(request.body(), "");
    let request = HttpRequest::new("GET / HTTP/1.1\r\n\r\n").unwrap();
    assert_eq!(request.body(), "");
}

#[test]
fn a_request_fails_only_without_a_version() {
    let error = HttpRequest::new("GET /index.html\r\nHost: x\r\n\r\n").err().unwrap();
    assert_eq!(
        error.to_string(),
        "Unknown Protocol version in GET /index.html\r\nHost: x\r\n\r\n"
    );
    assert!(HttpRequest::new("GET / HTTP/1.1").is_err());
    assert!(HttpRequest::new("").is_err());
}

#[test]
fn parts_that_cannot_be_read_are_replaced() {
    let request = HttpRequest::new("BREW /pot HTTP/1.1\r\nbroken\r\n\r\ntea").unwrap();
    assert_eq!(request.method(), Method::Uninitialized);
    assert_eq!(request.target(), "");
    assert_eq!(request.version(), Version::V1_1);
    assert_eq!(request.headers().len(), 0);
    assert_eq!(request.body(), "tea");
    let request = HttpRequest::new("HTTP/2\r\n").unwrap();
    assert_eq!(request.method(), Method::Uninitialized);
    assert_eq!(request.target(), "");
    assert_eq!(request.version(), Version::V2_0);
}

#[test]
fn a_buffer_padded_with_zeros_is_read() {
    let mut text = String::from("GET /a.txt HTTP/1.1\r\nHost: x\r\n\r\n");
    while text.len() < 1024 {
        text.push('\0');
    }
    let request = HttpRequest::new(&text).unwrap();
    assert_eq!(request.method(), Method::Get);
    assert_eq!(request.target(), "a.txt");
    assert_eq!(request.headers().len(), 1);
    assert_eq!(request.body().len(), 1024 - 32);
}
