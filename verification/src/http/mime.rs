//! The content type of a file: by the signature of its content, else by the
//! extension of its name.

use crate::text::{
    find_last, is_literal, lemma_rfind_last, lemma_rfind_none, lemma_subrange_of_subrange, rfind,
    to_chars,
};
use vstd::prelude::*;
use vstd::slice::slice_subrange;

verus! {

/// What `infer::Infer::get`, on a detector with no matchers added, makes of
/// a buffer: the MIME type of the first signature in its table that the
/// buffer matches, or nothing where it matches none.
pub uninterp spec fn sniffed_mime(bytes: Seq<u8>) -> Option<Seq<char>>;

/// How many bytes of a file's content are looked at for a signature.
pub const SNIFF_WINDOW: usize = 8192;

/// The bytes of a file's content that are looked at for a signature.
pub open spec fn sniff_window(content: Seq<u8>) -> Seq<u8> {
    if content.len() <= SNIFF_WINDOW {
        content
    } else {
        content.subrange(0, SNIFF_WINDOW as int)
    }
}

/// The MIME type that the signature of a file's content gives. No signature
/// is looked for where `usize` has fewer than 64 bits.
pub open spec fn signature_of(content: Seq<u8>) -> Option<Seq<char>> {
    if usize::BITS >= 64 {
        sniffed_mime(sniff_window(content))
    } else {
        None
    }
}

/// Calls `infer::Infer::get` on a new detector and hands on the result of
/// `infer::Type::mime_type` for what it found.
///
/// Not proved: that the result is a function of the bytes alone. The
/// detector compares the buffer with a fixed table of signatures, in the
/// order of the table, and reads nothing else.
///
/// Some of its matchers add a length that they read from the buffer to an
/// offset, in `usize`. With 64 bits the sum cannot wrap; with fewer it can,
/// and the matcher may then not return. So the call is made with 64 bits
/// only.
#[verifier::external_body]
fn sniff(bytes: &[u8]) -> (r: Option<&'static str>)
    requires
        usize::BITS >= 64,
    ensures
        match r {
            Some(mime) => sniffed_mime(bytes@) == Some(mime@),
            None => sniffed_mime(bytes@) is None,
        },
{
    match infer::Infer::new().get(bytes) {
        Some(kind) => Some(kind.mime_type()),
        None => None,
    }
}

/// The MIME type that the signature of a file's content gives.
pub fn signature(content: &[u8]) -> (r: Option<&'static str>)
    ensures
        match r {
            Some(mime) => signature_of(content@) == Some(mime@),
            None => signature_of(content@) is None,
        },
{
    if usize::BITS < 64 {
        return None;
    }
    let end: usize = if content.len() <= SNIFF_WINDOW {
        content.len()
    } else {
        SNIFF_WINDOW
    };
    assert(content@.subrange(0, content@.len() as int) =~= content@);
    sniff(slice_subrange(content, 0, end))
}

/// The name of the file that a path leads to: what stands after its last
/// `/`.
pub open spec fn file_name(path: Seq<char>) -> Seq<char> {
    match rfind(path, '/') {
        Some(i) => path.subrange(i + 1, path.len() as int),
        None => path,
    }
}

/// The extension of the file that a path leads to: what stands after the
/// last `.` of its name. A name without a `.`, a name whose only `.` it
/// starts with, and the name `..` have none.
pub open spec fn extension(path: Seq<char>) -> Option<Seq<char>> {
    let name = file_name(path);
    match rfind(name, '.') {
        Some(i) => if i == 0 || name == ".."@ {
            None
        } else {
            Some(name.subrange(i + 1, name.len() as int))
        },
        None => None,
    }
}

/// The MIME type that goes with an extension.
pub open spec fn type_of_extension(extension: Option<Seq<char>>) -> Seq<char> {
    match extension {
        Some(e) => if e == "html"@ {
            "text/html"@
        } else if e == "css"@ {
            "text/css"@
        } else if e == "js"@ {
            "application/javascript"@
        } else if e == "png"@ {
            "image/png"@
        } else if e == "jpg"@ || e == "jpeg"@ {
            "image/jpeg"@
        } else if e == "mp4"@ {
            "video/mp4"@
        } else if e == "gif"@ {
            "image/gif"@
        } else if e == "pdf"@ {
            "application/pdf"@
        } else if e == "txt"@ || e == "gitignore"@ {
            "text/plain"@
        } else if e == "rs"@ {
            "text/rs"@
        } else {
            "application/octet-stream"@
        },
        None => "application/octet-stream"@,
    }
}

/// The content type of a file: what the signature of its content gave,
/// else what goes with the extension of its name.
pub open spec fn content_type_of(sniffed: Option<Seq<char>>, path: Seq<char>) -> Seq<char> {
    match sniffed {
        Some(mime) => mime,
        None => type_of_extension(extension(path)),
    }
}

/// A path that ends, after a directory, with a stem, a `.` and an
/// extension leads to a file of that extension. The stem is not empty, and
/// stem and extension together are not the name `..`.
pub proof fn lemma_extension_of_name(dir: Seq<char>, stem: Seq<char>, ext: Seq<char>)
    requires
        dir.len() == 0 || dir.last() == '/',
        stem.len() > 0,
        !stem.contains('/'),
        !ext.contains('/'),
        !ext.contains('.'),
        ext.len() > 0 || stem != "."@,
    ensures
        extension(dir + stem + "."@ + ext) == Some(ext),
{
    reveal_strlit(".");
    reveal_strlit("..");
    let name = stem + "."@ + ext;
    let path = dir + name;
    let start = dir.len() as int;
    let dot = stem.len() as int;
    assert(path =~= dir + stem + "."@ + ext);
    assert forall|j: int| start <= j < path.len() implies path[j] != '/' by {
        if j - start < dot {
            assert(stem.contains(stem[j - start]));
        } else if j - start > dot {
            assert(ext.contains(ext[j - start - dot - 1]));
        }
    }
    if dir.len() == 0 {
        assert(path =~= name);
        assert(!path.contains('/'));
        lemma_rfind_none(path, '/');
    } else {
        lemma_rfind_last(path, '/', start - 1);
        assert(path.subrange(start, path.len() as int) =~= name);
    }
    assert(file_name(path) == name);
    assert forall|j: int| dot < j < name.len() implies name[j] != '.' by {
        assert(ext.contains(ext[j - dot - 1]));
    }
    lemma_rfind_last(name, '.', dot);
    if name == ".."@ {
        assert(name.len() == 2);
        assert(stem[0] == name[0]);
        assert(stem =~= "."@);
    }
    assert(name.subrange(dot + 1, name.len() as int) =~= ext);
}

/// The bounds in `path` of the extension of the file that it leads to.
pub fn locate_extension(path: &[char]) -> (r: Option<(usize, usize)>)
    ensures
        match r {
            Some((a, b)) => a <= b <= path@.len() && extension(path@) == Some(
                path@.subrange(a as int, b as int),
            ),
            None => extension(path@) is None,
        },
{
    let n: usize = path.len();
    let start: usize = match find_last(path, '/') {
        Some(i) => i + 1,
        None => 0,
    };
    let name = slice_subrange(path, start, n);
    assert(path@.subrange(0, n as int) =~= path@);
    match find_last(name, '.') {
        Some(i) => {
            if i == 0 || is_literal(name, "..") {
                None
            } else {
                proof {
                    lemma_subrange_of_subrange(path@, start as int, n as int, i + 1, n - start);
                }
                Some((start + i + 1, n))
            }
        },
        None => None,
    }
}

/// The MIME type that goes with an extension.
pub fn by_extension(extension: Option<&[char]>) -> (mime: &'static str)
    ensures
        mime@ == type_of_extension(
            match extension {
                Some(e) => Some(e@),
                None => None,
            },
        ),
{
    let e = match extension {
        Some(e) => e,
        None => {
            return "application/octet-stream";
        },
    };
    if is_literal(e, "html") {
        "text/html"
    } else if is_literal(e, "css") {
        "text/css"
    } else if is_literal(e, "js") {
        "application/javascript"
    } else if is_literal(e, "png") {
        "image/png"
    } else if is_literal(e, "jpg") || is_literal(e, "jpeg") {
        "image/jpeg"
    } else if is_literal(e, "mp4") {
        "video/mp4"
    } else if is_literal(e, "gif") {
        "image/gif"
    } else if is_literal(e, "pdf") {
        "application/pdf"
    } else if is_literal(e, "txt") || is_literal(e, "gitignore") {
        "text/plain"
    } else if is_literal(e, "rs") {
        "text/rs"
    } else {
        "application/octet-stream"
    }
}

/// The content type of the file that `path` leads to: `sniffed`, what the
/// signature of its content gave, else what goes with the extension of its
/// name.
pub fn content_type<'a>(sniffed: Option<&'a str>, path: &str) -> (mime: &'a str)
    ensures
        mime@ == content_type_of(
            match sniffed {
                Some(m) => Some(m@),
                None => None,
            },
            path@,
        ),
{
    match sniffed {
        Some(mime) => mime,
        None => {
            let chars = to_chars(path);
            match locate_extension(chars.as_slice()) {
                Some((a, b)) => by_extension(Some(slice_subrange(chars.as_slice(), a, b))),
                None => by_extension(None),
            }
        },
    }
}

} // verus!
