use simple_file_server::http::mime::{
    by_extension, content_type, locate_extension, signature, SNIFF_WINDOW,
};

fn chars(text: &str) -> Vec<char> {
    text.chars().collect()
}

fn extension_of(path: &str) -> Option<String> {
    let path = chars(path);
    locate_extension(&path).map(|(a, b)| path[a..b].iter().collect())
}

fn mime_for(extension: &str) -> &'static str {
    by_extension(Some(&chars(extension)))
}

#[test]
fn signatures_are_found() {
    assert_eq!(signature(&[0x89, 0x50, 0x4e, 0x47, 0x0d, 0x0a, 0x1a, 0x0a]), Some("image/png"));
    assert_eq!(signature(&[0xff, 0xd8, 0xff, 0xaa]), Some("image/jpeg"));
    assert_eq!(signature(b"GIF89a"), Some("image/gif"));
    assert_eq!(signature(b"%PDF-1.7\n"), Some("application/pdf"));
    assert_eq!(signature(b"  <html>"), Some("text/html"));
    assert_eq!(signature(b"#!/bin/sh\n"), Some("text/x-shellscript"));
}

#[test]
fn what_has_no_signature_has_none() {
    assert_eq!(signature(b""), None);
    assert_eq!(signature(b"hello, world"), None);
    assert_eq!(signature(&[0x89, 0x50, 0x4e]), None);
}

#[test]
fn only_the_start_of_a_file_is_looked_at() {
    assert_eq!(SNIFF_WINDOW, 8192);
    let mut content = vec![b'a'; 20000];
    assert_eq!(signature(&content), None);
    content[0] = 0xff;
    content[1] = 0xd8;
    content[2] = 0xff;
    assert_eq!(signature(&content), Some("image/jpeg"));
    let mut tar = vec![0u8; 600];
    tar[257..262].copy_from_slice(b"ustar");
    assert_eq!(signature(&tar), Some("application/x-tar"));
}

#[test]
fn the_extension_is_what_follows_the_last_dot_of_the_name() {
    assert_eq!(extension_of("index.html"), Some("html".to_string()));
    assert_eq!(extension_of("a/b/c.txt"), Some("txt".to_string()));
    assert_eq!(extension_of("archive.tar.gz"), Some("gz".to_string()));
    assert_eq!(extension_of("a.b/c.d.e"), Some("e".to_string()));
    assert_eq!(extension_of("name."), Some("".to_string()));
    assert_eq!(extension_of(".hidden.txt"), Some("txt".to_string()));
    assert_eq!(extension_of("x.gitignore"), Some("gitignore".to_string()));
}

#[test]
fn some_names_have_no_extension() {
    assert_eq!(extension_of(""), None);
    assert_eq!(extension_of("Makefile"), None);
    assert_eq!(extension_of("a.b/c"), None);
    assert_eq!(extension_of(".gitignore"), None);
    assert_eq!(extension_of("a/.profile"), None);
    assert_eq!(extension_of(".."), None);
    assert_eq!(extension_of("a/.."), None);
    assert_eq!(extension_of("a.txt/"), None);
}

#[test]
fn extension_bounds_in_the_characters() {
    assert_eq!(locate_extension(&chars("a/b.txt")), Some((4, 7)));
    assert_eq!(locate_extension(&chars("caf\u{e9}.png")), Some((5, 8)));
    assert_eq!(locate_extension(&chars("name.")), Some((5, 5)));
    assert_eq!(locate_extension(&chars("name")), None);
}

#[test]
fn each_known_extension_has_its_type() {
    assert_eq!(mime_for("html"), "text/html");
    assert_eq!(mime_for("css"), "text/css");
    assert_eq!(mime_for("js"), "application/javascript");
    assert_eq!(mime_for("png"), "image/png");
    assert_eq!(mime_for("jpg"), "image/jpeg");
    assert_eq!(mime_for("jpeg"), "image/jpeg");
    assert_eq!(mime_for("mp4"), "video/mp4");
    assert_eq!(mime_for("gif"), "image/gif");
    assert_eq!(mime_for("pdf"), "application/pdf");
    assert_eq!(mime_for("txt"), "text/plain");
    assert_eq!(mime_for("gitignore"), "text/plain");
    assert_eq!(mime_for("rs"), "text/rs");
}

#[test]
fn any_other_extension_is_a_stream_of_bytes() {
    assert_eq!(mime_for("gz"), "application/octet-stream");
    assert_eq!(mime_for("HTML"), "application/octet-stream");
    assert_eq!(mime_for("htm"), "application/octet-stream");
    assert_eq!(mime_for(""), "application/octet-stream");
    assert_eq!(by_extension(None), "application/octet-stream");
}

#[test]
fn the_content_type_is_the_signature_or_else_goes_by_the_extension() {
    assert_eq!(content_type(Some("image/png"), "a.txt"), "image/png");
    assert_eq!(content_type(Some("x/y"), "a"), "x/y");
    assert_eq!(content_type(None, "a.txt"), "text/plain");
    assert_eq!(content_type(None, "site/index.html"), "text/html");
    assert_eq!(content_type(None, "src/main.rs"), "text/rs");
    assert_eq!(content_type(None, ".gitignore"), "application/octet-stream");
    assert_eq!(content_type(None, "a.html/b"), "application/octet-stream");
    assert_eq!(content_type(None, ""), "application/octet-stream");
}
