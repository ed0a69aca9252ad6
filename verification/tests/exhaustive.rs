use std::collections::HashMap;

use simple_file_server::http::path::stays_within_root;
use simple_file_server::http::request::{HttpHeader, HttpRequest, Method, Resource, Version};

/// Every text made of up to `length` of the given pieces.
fn texts(pieces: &[&str], length: usize) -> Vec<String> {
    let mut all = vec![String::new()];
    let mut last = vec![String::new()];
    for _ in 0..length {
        let mut next = Vec::new();
        for text in &last {
            for piece in pieces {
                next.push(format!("{}{}", text, piece));
            }
        }
        all.extend(next.iter().cloned());
        last = next;
    }
    all
}

fn version_by_std(request: &str) -> Option<Version> {
    let (line, _) = request.split_once("\r\n")?;
    for token in line.split_ascii_whitespace() {
        if token == "HTTP/1.1" {
            return Some(Version::V1_1);
        } else if token == "HTTP/2" || token == "HTTP/2.0" {
            return Some(Version::V2_0);
        }
    }
    None
}

fn method_by_std(request: &str) -> Method {
    let verb = request.split_once("\r\n").and_then(|(line, _)| line.split_once(' '));
    match verb {
        Some(("GET", _)) => Method::Get,
        Some(("POST", _)) => Method::Post,
        _ => Method::Uninitialized,
    }
}

fn resource_by_std(request: &str) -> Option<String> {
    let (line, _) = request.split_once("\r\n")?;
    let (verb, rest) = line.split_once(' ')?;
    if verb != "GET" && verb != "POST" {
        return None;
    }
    let (target, _) = rest.split_once(' ')?;
    Some(target.strip_prefix('/').unwrap_or(target).to_string())
}

fn headers_by_std(request: &str) -> Option<HashMap<String, String>> {
    let (_, block) = request.split_once("\r\n")?;
    let mut headers = HashMap::new();
    for line in block.split_terminator("\r\n") {
        if line.is_empty() {
            break;
        }
        let (name, value) = line.split_once(':')?;
        headers.insert(name.trim().to_string(), value.trim().to_string());
    }
    Some(headers)
}

fn body_by_std(request: &str) -> String {
    request.split_once("\r\n\r\n").map_or(String::new(), |(_, body)| body.to_string())
}

fn same_headers(found: &HttpHeader, expected: &HashMap<String, String>) -> bool {
    found.len() == expected.len()
        && expected.iter().all(|(name, value)| found.get(name) == Some(value))
}

fn within_root_by_walking(path: &str) -> bool {
    if path.starts_with('/') {
        return false;
    }
    let mut depth = 0usize;
    for segment in path.split('/') {
        if segment == ".." {
            if depth == 0 {
                return false;
            }
            depth -= 1;
        } else if !segment.is_empty() && segment != "." {
            depth += 1;
        }
    }
    true
}

#[test]
fn request_lines_are_read_as_std_splits_them() {
    let pieces = ["GET", "POST", "PUT", " ", "/", "a", "HTTP/1.1", "HTTP/2", "\r\n", "\t"];
    for text in texts(&pieces, 5) {
        assert_eq!(Version::new(&text).ok(), version_by_std(&text), "{:?}", text);
        assert_eq!(Method::new(&text), method_by_std(&text), "{:?}", text);
        assert_eq!(
            Resource::new(&text).map(|resource| resource.path),
            resource_by_std(&text),
            "{:?}",
            text
        );
    }
}

#[test]
fn headers_are_read_as_std_splits_them() {
    let pieces = ["\r", "\n", ":", " ", "a", "b", "\u{a0}"];
    for block in texts(&pieces, 6) {
        for text in [block.clone(), format!("x\r\n{}", block)] {
            let expected = headers_by_std(&text);
            match HttpHeader::new(&text) {
                Some(found) => {
                    assert!(expected.is_some(), "{:?}", text);
                    assert!(same_headers(&found, &expected.unwrap()), "{:?}", text);
                },
                None => assert!(expected.is_none(), "{:?}", text),
            }
        }
    }
}

#[test]
fn requests_are_read_as_std_splits_them() {
    let pieces = ["GET /a HTTP/2", "\r\n", "\r", "\n", "k:v", "x", " "];
    for text in texts(&pieces, 6) {
        match HttpRequest::new(&text) {
            Ok(request) => {
                assert_eq!(Some(request.version()), version_by_std(&text), "{:?}", text);
                assert_eq!(request.method(), method_by_std(&text), "{:?}", text);
                assert_eq!(
                    request.target(),
                    resource_by_std(&text).unwrap_or_default(),
                    "{:?}",
                    text
                );
                assert!(
                    same_headers(request.headers(), &headers_by_std(&text).unwrap_or_default()),
                    "{:?}",
                    text
                );
                assert_eq!(request.body(), body_by_std(&text), "{:?}", text);
            },
            Err(error) => {
                assert_eq!(version_by_std(&text), None, "{:?}", text);
                assert_eq!(
                    error.to_string(),
                    format!("Unknown Protocol version in {}", text),
                    "{:?}",
                    text
                );
            },
        }
    }
}

#[test]
fn paths_stay_below_the_root_as_a_walk_shows() {
    let pieces = ["/", ".", "..", "a", "./", "../"];
    for path in texts(&pieces, 6) {
        assert_eq!(stays_within_root(&path), within_root_by_walking(&path), "{:?}", path);
    }
}
