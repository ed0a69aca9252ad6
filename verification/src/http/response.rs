//! The response: what is served for a request, given what the file system
//! holds at the requested path, and the bytes that go on the wire for it.

use crate::http::mime::{content_type, content_type_of, signature, signature_of};
use crate::http::path::{lemma_empty_resource_is_root, stays_within_root, within_root};
use crate::http::request::{HttpRequest, RequestView, Version};
use crate::text::{decimal, occurs_at, to_decimal};
use vstd::prelude::*;
use vstd::slice::slice_subrange;
use vstd::utf8::{encode_utf8, is_ascii_chars, is_ascii_chars_encode_utf8};

verus! {

/// The status of a response.
#[derive(Debug, Clone, Copy, PartialEq, Eq, Structural)]
pub enum ResponseStatus {
    Success,
    NotFound,
}

impl ResponseStatus {
    /// The code and the reason, as they stand in a status line.
    pub open spec fn text(self) -> Seq<char> {
        match self {
            ResponseStatus::Success => "200 OK"@,
            ResponseStatus::NotFound => "404 Not Found"@,
        }
    }

    /// The code and the reason, as they stand in a status line.
    pub fn as_str(&self) -> (s: &'static str)
        ensures
            s@ == self.text(),
    {
        match self {
            ResponseStatus::Success => "200 OK",
            ResponseStatus::NotFound => "404 Not Found",
        }
    }

    /// The code and the reason, as they stand in a status line.
    pub fn to_string(&self) -> (s: String)
        ensures
            s@ == self.text(),
    {
        String::from_str(self.as_str())
    }

    /// The code.
    pub fn code(&self) -> (code: u16)
        ensures
            code == match self {
                ResponseStatus::Success => 200u16,
                ResponseStatus::NotFound => 404u16,
            },
    {
        match self {
            ResponseStatus::Success => 200,
            ResponseStatus::NotFound => 404,
        }
    }
}

/// Whether parts of a file can be asked for.
#[derive(Debug, Clone, Copy, PartialEq, Eq, Structural)]
pub enum AcceptRanges {
    Bytes,
    Unsupported,
}

impl AcceptRanges {
    /// The header line, without its end.
    pub open spec fn text(self) -> Seq<char> {
        match self {
            AcceptRanges::Bytes => "Accept-Ranges: bytes"@,
            AcceptRanges::Unsupported => "Accept-Ranges: none"@,
        }
    }

    /// The header line, without its end.
    pub fn as_str(&self) -> (s: &'static str)
        ensures
            s@ == self.text(),
    {
        match self {
            AcceptRanges::Bytes => "Accept-Ranges: bytes",
            AcceptRanges::Unsupported => "Accept-Ranges: none",
        }
    }

    /// The header line, without its end.
    pub fn to_string(&self) -> (s: String)
        ensures
            s@ == self.text(),
    {
        String::from_str(self.as_str())
    }
}

/// One entry of a directory.
#[derive(Debug)]
pub struct Child {
    pub name: String,
    pub is_dir: bool,
}

/// What an entry of a directory holds.
pub struct ChildView {
    pub name: Seq<char>,
    pub is_dir: bool,
}

impl View for Child {
    type V = ChildView;

    open spec fn view(&self) -> ChildView {
        ChildView { name: self.name@, is_dir: self.is_dir }
    }
}

/// The kind of thing that the file system holds at a path.
#[derive(Debug, Clone, Copy, PartialEq, Eq, Structural)]
pub enum EntryKind {
    Missing,
    File,
    Directory,
    Other,
}

impl EntryKind {
    /// The kind of what stands at a path, from what the file system says
    /// of it: nothing where nothing exists, else a file where it is one,
    /// else a directory where it is one, else something other.
    pub open spec fn of(exists: bool, is_file: bool, is_dir: bool) -> EntryKind {
        if !exists {
            EntryKind::Missing
        } else if is_file {
            EntryKind::File
        } else if is_dir {
            EntryKind::Directory
        } else {
            EntryKind::Other
        }
    }

    /// The kind of what stands at a path, from what the file system says
    /// of it. A file is to be read, a directory to be listed.
    pub fn classify(exists: bool, is_file: bool, is_dir: bool) -> (kind: EntryKind)
        ensures
            kind == EntryKind::of(exists, is_file, is_dir),
    {
        if !exists {
            EntryKind::Missing
        } else if is_file {
            EntryKind::File
        } else if is_dir {
            EntryKind::Directory
        } else {
            EntryKind::Other
        }
    }
}

/// What the file system holds at the requested path.
#[derive(Debug)]
pub enum Entry {
    /// Nothing.
    Missing,
    /// A file, with its content.
    File(Vec<u8>),
    /// A directory, with its entries.
    Directory(Vec<Child>),
    /// Something that is neither a file nor a directory.
    Other,
}

/// What the file system holds at the requested path.
pub enum EntryView {
    Missing,
    File(Seq<u8>),
    Directory(Seq<ChildView>),
    Other,
}

impl Entry {
    /// The kind of the entry.
    pub fn kind(&self) -> (kind: EntryKind)
        ensures
            kind == match self@ {
                EntryView::Missing => EntryKind::Missing,
                EntryView::File(_) => EntryKind::File,
                EntryView::Directory(_) => EntryKind::Directory,
                EntryView::Other => EntryKind::Other,
            },
    {
        match self {
            Entry::Missing => EntryKind::Missing,
            Entry::File(_) => EntryKind::File,
            Entry::Directory(_) => EntryKind::Directory,
            Entry::Other => EntryKind::Other,
        }
    }
}

impl View for Entry {
    type V = EntryView;

    open spec fn view(&self) -> EntryView {
        match self {
            Entry::Missing => EntryView::Missing,
            Entry::File(content) => EntryView::File(content@),
            Entry::Directory(children) => EntryView::Directory(
                children@.map_values(|c: Child| c@),
            ),
            Entry::Other => EntryView::Other,
        }
    }
}

/// The first line of a response.
pub open spec fn status_line(version: Version, status: ResponseStatus) -> Seq<char> {
    version.text() + " "@ + status.text() + "\r\n"@
}

/// The header that names the content type, if there is one.
pub open spec fn content_type_line(content_type: Option<Seq<char>>) -> Seq<char> {
    match content_type {
        Some(mime) => "Content-Type: "@ + mime + "\r\n"@,
        None => Seq::empty(),
    }
}

/// The header that gives the length of the body.
pub open spec fn content_length_line(content_length: nat) -> Seq<char> {
    "Content-Length: "@ + decimal(content_length) + "\r\n"@
}

/// The header that says whether parts can be asked for, if there is one.
pub open spec fn accept_ranges_line(accept_ranges: Option<AcceptRanges>) -> Seq<char> {
    match accept_ranges {
        Some(ranges) => ranges.text() + "\r\n"@,
        None => Seq::empty(),
    }
}

/// The header that asks for the body to be shown in place, if it is asked.
pub open spec fn disposition_line(inline: bool) -> Seq<char> {
    if inline {
        "Content-Disposition: inline\r\n"@
    } else {
        Seq::empty()
    }
}

/// What a response holds.
pub struct ResponseView {
    pub version: Version,
    pub status: ResponseStatus,
    pub content_type: Option<Seq<char>>,
    pub content_length: nat,
    pub accept_ranges: Option<AcceptRanges>,
    pub inline: bool,
    pub body: Seq<u8>,
    pub current_path: Seq<char>,
}

impl ResponseView {
    /// The declared length is the length of the body.
    pub open spec fn wf(self) -> bool {
        self.content_length == self.body.len()
    }

    /// The status line and the headers, in their order, and the empty line
    /// after them.
    pub open spec fn head(self) -> Seq<char> {
        status_line(self.version, self.status) + content_type_line(self.content_type)
            + content_length_line(self.content_length) + accept_ranges_line(self.accept_ranges)
            + disposition_line(self.inline) + "\r\n"@
    }

    /// The bytes that go on the wire: the head in UTF-8, then the body as
    /// it is.
    pub open spec fn wire(self) -> Seq<u8> {
        encode_utf8(self.head()) + self.body
    }
}

/// The page that is served where nothing can be.
pub open spec fn not_found_page() -> Seq<char> {
    "<html><body><h1>404 Not Found</h1></body></html>"@
}

/// The list item that links to an entry of a directory. The name of a
/// directory is followed by `/`.
pub open spec fn listing_item(child: ChildView) -> Seq<char> {
    if child.is_dir {
        "<li><a href=\""@ + child.name + "/\">"@ + child.name + "/</a></li>"@
    } else {
        "<li><a href=\""@ + child.name + "\">"@ + child.name + "</a></li>"@
    }
}

/// The list items for the entries of a directory, in their order.
pub open spec fn listing_items(children: Seq<ChildView>) -> Seq<char>
    decreases children.len(),
{
    if children.len() == 0 {
        Seq::empty()
    } else {
        listing_items(children.drop_last()) + listing_item(children.last())
    }
}

/// The page that lists a directory: its path as the title, a link to the
/// directory above, and one list item for each entry.
pub open spec fn listing_page(path: Seq<char>, children: Seq<ChildView>) -> Seq<char> {
    "<!DOCTYPE html><html><body><h1>"@ + path + "</h1><a href=\"../\">Go Back</a><ul>"@
        + listing_items(children) + "</ul></body></html>"@
}

/// The response where nothing can be served.
pub open spec fn not_found_view(version: Version, path: Seq<char>) -> ResponseView {
    ResponseView {
        version,
        status: ResponseStatus::NotFound,
        content_type: None,
        content_length: encode_utf8(not_found_page()).len(),
        accept_ranges: Some(AcceptRanges::Unsupported),
        inline: false,
        body: encode_utf8(not_found_page()),
        current_path: path,
    }
}

/// The response that serves a file.
pub open spec fn file_view(
    version: Version,
    path: Seq<char>,
    mime: Seq<char>,
    content: Seq<u8>,
) -> ResponseView {
    ResponseView {
        version,
        status: ResponseStatus::Success,
        content_type: Some(mime),
        content_length: content.len(),
        accept_ranges: None,
        inline: true,
        body: content,
        current_path: path,
    }
}

/// The response that lists a directory.
pub open spec fn listing_view(
    version: Version,
    path: Seq<char>,
    children: Seq<ChildView>,
) -> ResponseView {
    ResponseView {
        version,
        status: ResponseStatus::Success,
        content_type: None,
        content_length: encode_utf8(listing_page(path, children)).len(),
        accept_ranges: Some(AcceptRanges::Unsupported),
        inline: false,
        body: encode_utf8(listing_page(path, children)),
        current_path: path,
    }
}

/// What is served for a request, given what stands at the requested path
/// and what the signature of a file's content gave. A path that leaves the
/// root is answered as one where nothing stands.
pub open spec fn respond(
    request: RequestView,
    entry: EntryView,
    sniffed: Option<Seq<char>>,
) -> ResponseView {
    if !within_root(request.target) {
        not_found_view(request.version, request.target)
    } else {
        match entry {
            EntryView::File(content) => file_view(
                request.version,
                request.target,
                content_type_of(sniffed, request.target),
                content,
            ),
            EntryView::Directory(children) => listing_view(
                request.version,
                request.target,
                children,
            ),
            _ => not_found_view(request.version, request.target),
        }
    }
}

/// What is served for a request, given what stands at the requested path.
pub open spec fn served(request: RequestView, entry: EntryView) -> ResponseView {
    respond(
        request,
        entry,
        match entry {
            EntryView::File(content) => signature_of(content),
            _ => None,
        },
    )
}

/// A response, and the bytes that go on the wire for it.
#[derive(Debug)]
pub struct HttpResponse {
    version: Version,
    status: ResponseStatus,
    content_type: Option<String>,
    content_length: usize,
    accept_ranges: Option<AcceptRanges>,
    inline: bool,
    pub response_body: Vec<u8>,
    pub current_path: String,
}

impl View for HttpResponse {
    type V = ResponseView;

    closed spec fn view(&self) -> ResponseView {
        let head = ResponseView {
            version: self.version,
            status: self.status,
            content_type: match self.content_type {
                Some(mime) => Some(mime@),
                None => None,
            },
            content_length: self.content_length as nat,
            accept_ranges: self.accept_ranges,
            inline: self.inline,
            body: Seq::empty(),
            current_path: self.current_path@,
        };
        ResponseView {
            body: self.response_body@.skip(encode_utf8(head.head()).len() as int),
            ..head
        }
    }
}

impl HttpResponse {
    /// The bytes that are sent.
    pub closed spec fn bytes(&self) -> Seq<u8> {
        self.response_body@
    }

    /// The bytes that are sent are those of the response, and the declared
    /// length is the length of the body.
    pub open spec fn intact(&self) -> bool {
        &&& self@.wf()
        &&& self.bytes() == self@.wire()
    }

    /// The status line and the headers, and the empty line after them.
    fn head(
        version: Version,
        status: ResponseStatus,
        content_type: &Option<String>,
        content_length: usize,
        accept_ranges: Option<AcceptRanges>,
        inline: bool,
    ) -> (head: String)
        ensures
            head@ == status_line(version, status) + content_type_line(
                match content_type {
                    Some(mime) => Some(mime@),
                    None => None,
                },
            ) + content_length_line(content_length as nat) + accept_ranges_line(accept_ranges)
                + disposition_line(inline) + "\r\n"@,
    {
        let mut head = String::from_str(version.as_str());
        head.append(" ");
        head.append(status.as_str());
        head.append("\r\n");
        assert(head@ =~= status_line(version, status));
        let ghost so_far = head@;
        match content_type {
            Some(mime) => {
                head.append("Content-Type: ");
                head.append(mime.as_str());
                head.append("\r\n");
            },
            None => {},
        }
        assert(head@ =~= so_far + content_type_line(
            match content_type {
                Some(mime) => Some(mime@),
                None => None,
            },
        ));
        let ghost so_far = head@;
        let length = to_decimal(content_length);
        head.append("Content-Length: ");
        head.append(length.as_str());
        head.append("\r\n");
        assert(head@ =~= so_far + content_length_line(content_length as nat));
        let ghost so_far = head@;
        match accept_ranges {
            Some(ranges) => {
                head.append(ranges.as_str());
                head.append("\r\n");
            },
            None => {},
        }
        assert(head@ =~= so_far + accept_ranges_line(accept_ranges));
        let ghost so_far = head@;
        if inline {
            head.append("Content-Disposition: inline\r\n");
        }
        assert(head@ =~= so_far + disposition_line(inline));
        head.append("\r\n");
        head
    }

    /// A response with the given parts.
    fn build(
        version: Version,
        status: ResponseStatus,
        content_type: Option<String>,
        accept_ranges: Option<AcceptRanges>,
        inline: bool,
        body: Vec<u8>,
        current_path: String,
    ) -> (r: HttpResponse)
        ensures
            r.intact(),
            r@ == (ResponseView {
                version,
                status,
                content_type: match content_type {
                    Some(mime) => Some(mime@),
                    None => None,
                },
                content_length: body@.len(),
                accept_ranges,
                inline,
                body: body@,
                current_path: current_path@,
            }),
    {
        let mut body = body;
        let content_length: usize = body.len();
        let head = HttpResponse::head(
            version,
            status,
            &content_type,
            content_length,
            accept_ranges,
            inline,
        );
        let mut response_body = head.as_str().as_bytes_vec();
        let ghost head_bytes = response_body@;
        let ghost payload = body@;
        response_body.append(&mut body);
        let r = HttpResponse {
            version,
            status,
            content_type,
            content_length,
            accept_ranges,
            inline,
            response_body,
            current_path,
        };
        assert(r.response_body@.skip(head_bytes.len() as int) =~= payload);
        r
    }

    /// The response where nothing can be served: status 404 and a fixed
    /// page.
    pub fn not_found(version: Version, current_path: String) -> (r: HttpResponse)
        ensures
            r.intact(),
            r@ == not_found_view(version, current_path@),
    {
        let body = "<html><body><h1>404 Not Found</h1></body></html>".as_bytes_vec();
        HttpResponse::build(
            version,
            ResponseStatus::NotFound,
            None,
            Some(AcceptRanges::Unsupported),
            false,
            body,
            current_path,
        )
    }

    /// The response that serves a file: status 200, the content type, and
    /// the content as the body, byte for byte.
    pub fn file(version: Version, current_path: String, mime: &str, content: Vec<u8>) -> (r:
        HttpResponse)
        ensures
            r.intact(),
            r@ == file_view(version, current_path@, mime@, content@),
    {
        HttpResponse::build(
            version,
            ResponseStatus::Success,
            Some(String::from_str(mime)),
            None,
            true,
            content,
            current_path,
        )
    }

    /// The response that lists a directory: status 200 and a page with one
    /// link for each entry.
    pub fn listing(version: Version, current_path: String, children: &Vec<Child>) -> (r:
        HttpResponse)
        ensures
            r.intact(),
            r@ == listing_view(version, current_path@, children@.map_values(|c: Child| c@)),
    {
        let ghost entries = children@.map_values(|c: Child| c@);
        let mut items = String::new();
        let n: usize = children.len();
        let mut i: usize = 0;
        assert(entries.take(0) =~= Seq::<ChildView>::empty());
        while i < n
            invariant
                n == children@.len(),
                i <= n,
                entries == children@.map_values(|c: Child| c@),
                items@ == listing_items(entries.take(i as int)),
            decreases n - i,
        {
            let child = &children[i];
            let ghost before = items@;
            items.append("<li><a href=\"");
            items.append(child.name.as_str());
            if child.is_dir {
                items.append("/\">");
                items.append(child.name.as_str());
                items.append("/</a></li>");
            } else {
                items.append("\">");
                items.append(child.name.as_str());
                items.append("</a></li>");
            }
            proof {
                assert(entries[i as int] == child@);
                assert(items@ =~= before + listing_item(child@));
                assert(entries.take(i + 1).drop_last() =~= entries.take(i as int));
                assert(entries.take(i + 1).last() == child@);
            }
            i = i + 1;
        }
        assert(entries.take(n as int) =~= entries);
        let mut page = String::from_str("<!DOCTYPE html><html><body><h1>");
        page.append(current_path.as_str());
        page.append("</h1><a href=\"../\">Go Back</a><ul>");
        page.append(items.as_str());
        page.append("</ul></body></html>");
        let body = page.as_str().as_bytes_vec();
        HttpResponse::build(
            version,
            ResponseStatus::Success,
            None,
            Some(AcceptRanges::Unsupported),
            false,
            body,
            current_path,
        )
    }

    /// The response to `request`, given what stands at the requested path
    /// and what the signature of a file's content gave.
    pub fn assemble(request: HttpRequest, entry: Entry, sniffed: Option<&str>) -> (r:
        HttpResponse)
        ensures
            r.intact(),
            r@ == respond(
                request@,
                entry@,
                match sniffed {
                    Some(mime) => Some(mime@),
                    None => None,
                },
            ),
    {
        let version = request.version();
        let current_path = String::from_str(request.target());
        if !stays_within_root(request.target()) {
            return HttpResponse::not_found(version, current_path);
        }
        match entry {
            Entry::File(content) => {
                let mime = content_type(sniffed, request.target());
                HttpResponse::file(version, current_path, mime, content)
            },
            Entry::Directory(children) => HttpResponse::listing(version, current_path, &children),
            _ => HttpResponse::not_found(version, current_path),
        }
    }

    /// The response to `request`, given what stands at the requested path:
    /// a file is served with the content type that its signature or its
    /// extension gives, a directory is listed, anything else is not found.
    pub fn new(request: HttpRequest, entry: Entry) -> (r: HttpResponse)
        ensures
            r.intact(),
            r@ == served(request@, entry@),
    {
        let sniffed = match &entry {
            Entry::File(content) => signature(content.as_slice()),
            _ => None,
        };
        HttpResponse::assemble(request, entry, sniffed)
    }

    /// The bytes to send.
    pub fn wire(&self) -> (bytes: &[u8])
        ensures
            bytes@ == self.bytes(),
    {
        self.response_body.as_slice()
    }

    /// The path that the response was built for.
    pub fn current_path(&self) -> (path: &str)
        ensures
            path@ == self@.current_path,
    {
        self.current_path.as_str()
    }

    /// The version.
    pub fn version(&self) -> (v: Version)
        ensures
            v == self@.version,
    {
        self.version
    }

    /// The status.
    pub fn status(&self) -> (s: ResponseStatus)
        ensures
            s == self@.status,
    {
        self.status
    }

    /// The declared length of the body.
    pub fn content_length(&self) -> (n: usize)
        ensures
            n == self@.content_length,
    {
        self.content_length
    }

    /// The content type, if one is declared.
    pub fn content_type(&self) -> (mime: Option<&str>)
        ensures
            match mime {
                Some(m) => self@.content_type == Some(m@),
                None => self@.content_type is None,
            },
    {
        match &self.content_type {
            Some(mime) => Some(mime.as_str()),
            None => None,
        }
    }

    /// Whether parts can be asked for, if the response says so.
    pub fn accept_ranges(&self) -> (a: Option<AcceptRanges>)
        ensures
            a == self@.accept_ranges,
    {
        self.accept_ranges
    }

    /// Whether the body is to be shown in place.
    pub fn inline(&self) -> (b: bool)
        ensures
            b == self@.inline,
    {
        self.inline
    }

    /// The body.
    pub fn body(&self) -> (body: &[u8])
        requires
            self.intact(),
        ensures
            body@ == self@.body,
    {
        let n: usize = self.response_body.len();
        assert(self.response_body@.skip(n - self.content_length) =~= self@.body);
        slice_subrange(self.response_body.as_slice(), n - self.content_length, n)
    }
}

/// Whatever is served, the declared length is the length of the body.
pub proof fn lemma_length_is_declared(
    request: RequestView,
    entry: EntryView,
    sniffed: Option<Seq<char>>,
)
    ensures
        respond(request, entry, sniffed).wf(),
{
}

/// Where nothing stands at the requested path, or something that is neither
/// a file nor a directory, the status is 404 and the body is the fixed
/// page, whose 48 bytes are declared as the length.
pub proof fn lemma_nothing_is_not_found(
    request: RequestView,
    entry: EntryView,
    sniffed: Option<Seq<char>>,
)
    requires
        entry is Missing || entry is Other,
    ensures
        respond(request, entry, sniffed).status == ResponseStatus::NotFound,
        respond(request, entry, sniffed).body == encode_utf8(not_found_page()),
        respond(request, entry, sniffed).content_length == 48,
{
    let page = not_found_page();
    reveal_strlit("<html><body><h1>404 Not Found</h1></body></html>");
    assert(is_ascii_chars(page));
    is_ascii_chars_encode_utf8(page);
}

/// A path that leaves the root is answered as one where nothing stands,
/// whatever stands there.
pub proof fn lemma_outside_root_is_not_found(
    request: RequestView,
    entry: EntryView,
    sniffed: Option<Seq<char>>,
)
    requires
        !within_root(request.target),
    ensures
        respond(request, entry, sniffed) == respond(request, EntryView::Missing, sniffed),
{
}

/// A file below the root is served with status 200: the body is its
/// content, byte for byte, the declared length is the length of that
/// content, and the content type is what the signature gave, else what goes
/// with the extension of its name.
pub proof fn lemma_file_is_served(
    request: RequestView,
    content: Seq<u8>,
    sniffed: Option<Seq<char>>,
)
    requires
        within_root(request.target),
    ensures
        respond(request, EntryView::File(content), sniffed).status == ResponseStatus::Success,
        respond(request, EntryView::File(content), sniffed).body == content,
        respond(request, EntryView::File(content), sniffed).content_length == content.len(),
        respond(request, EntryView::File(content), sniffed).content_type == Some(
            content_type_of(sniffed, request.target),
        ),
{
}

/// A request for the empty path, where the root is a directory, is answered
/// with status 200 and the page that lists the entries of the root.
pub proof fn lemma_root_is_listed(
    request: RequestView,
    children: Seq<ChildView>,
    sniffed: Option<Seq<char>>,
)
    requires
        request.target.len() == 0,
    ensures
        respond(request, EntryView::Directory(children), sniffed).status
            == ResponseStatus::Success,
        respond(request, EntryView::Directory(children), sniffed).body == encode_utf8(
            listing_page(request.target, children),
        ),
{
    assert(request.target =~= Seq::<char>::empty());
    lemma_empty_resource_is_root(Seq::empty());
}

/// The list items of two runs of entries, one after the other, are the
/// list items of all of them.
pub proof fn lemma_listing_items_concat(first: Seq<ChildView>, second: Seq<ChildView>)
    ensures
        listing_items(first + second) == listing_items(first) + listing_items(second),
    decreases second.len(),
{
    if second.len() == 0 {
        assert(first + second =~= first);
        assert(listing_items(first) + listing_items(second) =~= listing_items(first));
    } else {
        assert((first + second).drop_last() =~= first + second.drop_last());
        assert((first + second).last() == second.last());
        lemma_listing_items_concat(first, second.drop_last());
        assert(listing_items(first) + listing_items(second.drop_last()) + listing_item(
            second.last(),
        ) =~= listing_items(first) + (listing_items(second.drop_last()) + listing_item(
            second.last(),
        )));
    }
}

/// The page that lists a directory holds the list item of each of its
/// entries, and nothing of what stands below them: the page is made of the
/// path and the entries alone.
pub proof fn lemma_listing_links_each(path: Seq<char>, children: Seq<ChildView>, i: int)
    requires
        0 <= i < children.len(),
    ensures
        exists|at: int| occurs_at(listing_page(path, children), listing_item(children[i]), at),
{
    let before = children.take(i);
    let after = children.skip(i + 1);
    let opening = "<!DOCTYPE html><html><body><h1>"@ + path
        + "</h1><a href=\"../\">Go Back</a><ul>"@;
    let item = listing_item(children[i]);
    assert(children =~= before + seq![children[i]] + after);
    lemma_listing_items_concat(before + seq![children[i]], after);
    lemma_listing_items_concat(before, seq![children[i]]);
    assert(seq![children[i]].drop_last() =~= Seq::<ChildView>::empty());
    assert(seq![children[i]].last() == children[i]);
    assert(listing_items(Seq::<ChildView>::empty()) =~= Seq::<char>::empty());
    assert(listing_items(seq![children[i]]) =~= item);
    let at = (opening + listing_items(before)).len() as int;
    let page = listing_page(path, children);
    assert(page =~= opening + listing_items(before) + item + listing_items(after)
        + "</ul></body></html>"@);
    assert(page.subrange(at, at + item.len()) =~= item);
    assert(occurs_at(page, item, at));
}

/// Two responses to the same request, with the same thing at the requested
/// path, are sent as the same bytes.
pub proof fn lemma_same_request_same_bytes(
    first: HttpResponse,
    second: HttpResponse,
    request: RequestView,
    entry: EntryView,
)
    requires
        first.intact(),
        second.intact(),
        first@ == served(request, entry),
        second@ == served(request, entry),
    ensures
        first.bytes() == second.bytes(),
{
}

} // verus!
