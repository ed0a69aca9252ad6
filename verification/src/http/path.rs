//! Paths below the server's root: which requested paths stay there, and
//! where they lead.

use crate::text::{
    find, find_between, is_literal, lemma_find_none, lemma_find_sound, lemma_split_once_at_char,
    lemma_subrange_of_subrange, occurs_at, split_once, to_chars,
};
use vstd::prelude::*;
use vstd::slice::slice_subrange;

verus! {

/// How deep below the root a walk stands after one more segment: `..`
/// climbs, an empty segment and `.` stay, any other segment descends.
pub open spec fn depth_after(segment: Seq<char>, depth: int) -> int {
    if segment == ".."@ {
        depth - 1
    } else if segment.len() == 0 || segment == "."@ {
        depth
    } else {
        depth + 1
    }
}

/// A walk along the segments of `path`, which `/` parts, that starts
/// `depth` below the root never climbs above the root.
pub open spec fn stays_below(path: Seq<char>, depth: int) -> bool
    decreases path.len(),
    via stays_below_decreases
{
    match split_once(path, "/"@) {
        Some((segment, rest)) => depth_after(segment, depth) >= 0 && stays_below(
            rest,
            depth_after(segment, depth),
        ),
        None => depth_after(path, depth) >= 0,
    }
}

#[via_fn]
proof fn stays_below_decreases(path: Seq<char>, depth: int) {
    reveal_strlit("/");
    lemma_find_sound(path, "/"@);
}

/// The requested path leads nowhere but below the root: it does not start
/// at the root of the file system, and no `..` in it climbs above the
/// server's root.
pub open spec fn within_root(resource: Seq<char>) -> bool {
    !(resource.len() > 0 && resource[0] == '/') && stays_below(resource, 0)
}

/// The path of `resource` below `root`: the root itself for the empty
/// resource.
pub open spec fn joined(root: Seq<char>, resource: Seq<char>) -> Seq<char> {
    if resource.len() == 0 {
        root
    } else if root.len() == 0 || root.last() == '/' {
        root + resource
    } else {
        root + "/"@ + resource
    }
}

/// The empty resource stays below the root, and leads to the root itself.
pub proof fn lemma_empty_resource_is_root(root: Seq<char>)
    ensures
        within_root(Seq::empty()),
        joined(root, Seq::empty()) == root,
{
    reveal_strlit("..");
    reveal_strlit("/");
    lemma_find_sound(Seq::<char>::empty(), "/"@);
}

/// A walk along a path in which `..` stands nowhere never climbs.
pub proof fn lemma_no_climb_stays_below(path: Seq<char>, depth: int)
    requires
        0 <= depth,
        find(path, ".."@) is None,
    ensures
        stays_below(path, depth),
    decreases path.len(),
{
    reveal_strlit("/");
    reveal_strlit("..");
    lemma_find_sound(path, ".."@);
    lemma_find_sound(path, "/"@);
    assert(path.subrange(0, path.len() as int) =~= path);
    match split_once(path, "/"@) {
        Some((segment, rest)) => {
            let at = find(path, "/"@)->0;
            assert(segment != ".."@) by {
                if segment == ".."@ {
                    assert(path.subrange(0, 2) =~= segment);
                    assert(occurs_at(path, ".."@, 0));
                }
            }
            assert forall|i: int| !occurs_at(rest, ".."@, i) by {
                if occurs_at(rest, ".."@, i) {
                    assert(path.subrange(at + 1 + i, at + 1 + i + 2) =~= rest.subrange(i, i + 2));
                    assert(occurs_at(path, ".."@, at + 1 + i));
                }
            }
            lemma_find_none(rest, ".."@);
            lemma_no_climb_stays_below(rest, depth_after(segment, depth));
        },
        None => {
            assert(path != ".."@) by {
                if path == ".."@ {
                    assert(occurs_at(path, ".."@, 0));
                }
            }
        },
    }
}

/// A path that does not start with `/`, and in which `..` stands nowhere,
/// leads nowhere but below the root.
pub proof fn lemma_plain_path_within_root(resource: Seq<char>)
    requires
        !(resource.len() > 0 && resource[0] == '/'),
        find(resource, ".."@) is None,
    ensures
        within_root(resource),
{
    lemma_no_climb_stays_below(resource, 0);
}

/// A path that starts with `../` leaves the root.
pub proof fn lemma_climb_leaves_root(rest: Seq<char>)
    ensures
        !within_root("../"@ + rest),
{
    reveal_strlit("../");
    reveal_strlit("..");
    reveal_strlit("/");
    let path = "../"@ + rest;
    assert("../"@ =~= ".."@ + "/"@);
    assert(path =~= ".."@ + "/"@ + rest);
    assert("/"@ =~= seq!['/']);
    assert(!".."@.contains('/'));
    lemma_split_once_at_char(".."@, '/', rest);
}

/// Where the walk stands after the segment `chars[start..end]`, or nothing
/// where it climbs above the root.
fn step(chars: &[char], start: usize, end: usize, depth: usize) -> (r: Option<usize>)
    requires
        start <= end <= chars@.len(),
        depth <= start,
    ensures
        match r {
            Some(d) => d == depth_after(chars@.subrange(start as int, end as int), depth as int)
                && d <= end + 1,
            None => depth_after(chars@.subrange(start as int, end as int), depth as int) < 0,
        },
{
    let segment = slice_subrange(chars, start, end);
    if is_literal(segment, "..") {
        if depth == 0 {
            None
        } else {
            Some(depth - 1)
        }
    } else if start == end || is_literal(segment, ".") {
        Some(depth)
    } else {
        Some(depth + 1)
    }
}

/// Whether the requested path leads nowhere but below the root.
pub fn stays_within_root(resource: &str) -> (r: bool)
    ensures
        r == within_root(resource@),
{
    let chars = to_chars(resource);
    let slash = to_chars("/");
    let n: usize = chars.len();
    if n > 0 && chars[0] == '/' {
        return false;
    }
    let mut pos: usize = 0;
    let mut depth: usize = 0;
    assert(chars@.subrange(0, n as int) =~= resource@);
    loop
        invariant
            n == chars@.len(),
            chars@ == resource@,
            !(n > 0 && chars@[0] == '/'),
            slash@ == "/"@,
            pos <= n,
            depth <= pos,
            stays_below(resource@, 0) == stays_below(
                chars@.subrange(pos as int, n as int),
                depth as int,
            ),
        decreases n - pos,
    {
        let ghost rest = chars@.subrange(pos as int, n as int);
        match find_between(chars.as_slice(), pos, n, slash.as_slice()) {
            Some(at) => {
                proof {
                    reveal_strlit("/");
                    lemma_subrange_of_subrange(chars@, pos as int, n as int, 0, at - pos);
                    lemma_subrange_of_subrange(
                        chars@,
                        pos as int,
                        n as int,
                        at + 1 - pos,
                        n - pos,
                    );
                }
                match step(chars.as_slice(), pos, at, depth) {
                    Some(d) => {
                        depth = d;
                    },
                    None => {
                        return false;
                    },
                }
                pos = at + slash.len();
            },
            None => {
                assert(rest.subrange(0, rest.len() as int) =~= rest);
                return step(chars.as_slice(), pos, n, depth).is_some();
            },
        }
    }
}

/// The path of `resource` below `root`.
pub fn join(root: &str, resource: &str) -> (path: String)
    ensures
        path@ == joined(root@, resource@),
{
    let mut path = String::from_str(root);
    if resource.is_empty() {
        return path;
    }
    let root_len: usize = root.unicode_len();
    if root_len > 0 && root.get_char(root_len - 1) != '/' {
        path.append("/");
    }
    path.append(resource);
    path
}

/// The path to look up for `resource` below `root`, where it stays below
/// the root.
pub fn resolve(root: &str, resource: &str) -> (r: Option<String>)
    ensures
        match r {
            Some(path) => within_root(resource@) && path@ == joined(root@, resource@),
            None => !within_root(resource@),
        },
{
    if stays_within_root(resource) {
        Some(join(root, resource))
    } else {
        None
    }
}

} // verus!
