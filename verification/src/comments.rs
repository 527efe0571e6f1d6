//! The comments of a module that concern the bundle: the source-map URL
//! comment that names a module's input map, and the comments that are left
//! out of the output.

use vstd::prelude::*;

use crate::rename::str_views;
use crate::scan_info::{trim, trim_str};
use crate::text::{chars_starts_with, has_prefix, literal_chars, str_chars, str_eq};

verus! {

/// Where a source-map URL comment says a module's input map is.
#[derive(Debug, Clone, PartialEq, Eq)]
pub enum MapLocation {
    /// A `data:` URL: the map is inline, and is not read.
    Inline,
    /// A path next to the module.
    File(String),
}

/// A location as the contracts see it.
pub enum MapLocationView {
    Inline,
    File(Seq<char>),
}

/// The view of an optional location.
pub open spec fn location_view(l: Option<MapLocation>) -> Option<MapLocationView> {
    match l {
        Some(MapLocation::Inline) => Some(MapLocationView::Inline),
        Some(MapLocation::File(p)) => Some(MapLocationView::File(p@)),
        None => None,
    }
}

/// The text after a source-map URL prefix (`//# sourceMappingURL=` or the
/// older `//@ sourceMappingURL=`), if the text starts with one.
pub open spec fn after_url_prefix(t: Seq<char>) -> Option<Seq<char>> {
    if has_prefix(t, "//# sourceMappingURL="@) {
        Some(t.skip("//# sourceMappingURL="@.len() as int))
    } else if has_prefix(t, "//@ sourceMappingURL="@) {
        Some(t.skip("//@ sourceMappingURL="@.len() as int))
    } else {
        None
    }
}

/// What the comment `comment` says of the module's input map: nothing when
/// it is no source-map URL comment (after trimming); else the trimmed URL,
/// inline when it is a `data:` URL.
pub open spec fn map_location_spec(comment: Seq<char>) -> Option<MapLocationView> {
    match after_url_prefix(trim(comment)) {
        Some(rest) => if has_prefix(trim(rest), "data:"@) {
            Some(MapLocationView::Inline)
        } else {
            Some(MapLocationView::File(trim(rest)))
        },
        None => None,
    }
}

fn strip_url_prefix(t: &Vec<char>) -> (r: Option<Vec<char>>)
    ensures
        match r {
            Some(v) => after_url_prefix(t@) == Some(v@),
            None => after_url_prefix(t@) is None,
        },
{
    let p1 = literal_chars("//# sourceMappingURL=");
    let p2 = literal_chars("//@ sourceMappingURL=");
    let p = if chars_starts_with(t, &p1) {
        p1
    } else if chars_starts_with(t, &p2) {
        p2
    } else {
        return None;
    };
    let mut out: Vec<char> = Vec::new();
    let mut i: usize = p.len();
    while i < t.len()
        invariant
            p@.len() <= i <= t@.len(),
            out@ == t@.subrange(p@.len() as int, i as int),
        decreases t@.len() - i,
    {
        out.push(t[i]);
        assert(t@.subrange(p@.len() as int, i + 1) =~= t@.subrange(p@.len() as int, i as int).push(t@[i as int]));
        i += 1;
    }
    assert(t@.skip(p@.len() as int) =~= t@.subrange(p@.len() as int, t@.len() as int));
    Some(out)
}

fn chars_string(v: &Vec<char>) -> (r: String)
    ensures
        r@ == v@,
{
    let mut s = String::new();
    let mut i: usize = 0;
    while i < v.len()
        invariant
            0 <= i <= v@.len(),
            s@ == v@.take(i as int),
        decreases v@.len() - i,
    {
        crate::text::string_push(&mut s, v[i]);
        assert(v@.take(i + 1) =~= v@.take(i as int).push(v@[i as int]));
        i += 1;
    }
    assert(v@.take(v@.len() as int) =~= v@);
    s
}

/// What one comment of a module says of the module's input map (see
/// [`map_location_spec`]).
pub fn map_location(comment: &str) -> (r: Option<MapLocation>)
    ensures
        location_view(r) == map_location_spec(comment@),
{
    let t = trim_str(comment);
    let tv = str_chars(t.as_str());
    match strip_url_prefix(&tv) {
        Some(rest) => {
            let rest_text = chars_string(&rest);
            let url = trim_str(rest_text.as_str());
            let uv = str_chars(url.as_str());
            if chars_starts_with(&uv, &literal_chars("data:")) {
                Some(MapLocation::Inline)
            } else {
                Some(MapLocation::File(url))
            }
        },
        None => None,
    }
}

/// Whether a comment of a module is kept in the output: it is neither one
/// of the module's reference directives nor a source-map URL comment (both
/// compared after trimming).
pub open spec fn comment_kept_spec(comment: Seq<char>, directives: Seq<Seq<char>>) -> bool {
    !directives.contains(trim(comment)) && !has_prefix(trim(comment), "//# sourceMappingURL="@) && !has_prefix(
        trim(comment),
        "//@ sourceMappingURL="@,
    )
}

/// Whether a comment of a module is kept in the output (see
/// [`comment_kept_spec`]).
pub fn comment_kept(comment: &str, directives: &Vec<String>) -> (r: bool)
    ensures
        r == comment_kept_spec(comment@, str_views(directives@)),
{
    let t = trim_str(comment);
    let mut i: usize = 0;
    while i < directives.len()
        invariant
            0 <= i <= directives@.len(),
            t@ == trim(comment@),
            forall|j: int| 0 <= j < i ==> directives@[j]@ != t@,
        decreases directives@.len() - i,
    {
        if str_eq(directives[i].as_str(), t.as_str()) {
            assert(str_views(directives@)[i as int] == t@);
            assert(str_views(directives@).contains(t@));
            return false;
        }
        i += 1;
    }
    assert(!str_views(directives@).contains(t@)) by {
        if str_views(directives@).contains(t@) {
            let j = choose|j: int| 0 <= j < str_views(directives@).len() && str_views(directives@)[j] == t@;
            assert(directives@[j]@ == t@);
        }
    }
    let tv = str_chars(t.as_str());
    !chars_starts_with(&tv, &literal_chars("//# sourceMappingURL=")) && !chars_starts_with(
        &tv,
        &literal_chars("//@ sourceMappingURL="),
    )
}

} // verus!
