//! Paths as text.

use vstd::prelude::*;

use crate::text::{chars_of, contains, occurs_at, same, string_of};

verus! {

/// Where the last part of a path starts, looking back from `i`.
pub open spec fn segment_start(s: Seq<char>, i: int) -> int
    decreases i,
{
    if i <= 0 {
        0
    } else if s[i - 1] == '/' {
        i
    } else {
        segment_start(s, i - 1)
    }
}

/// What stands behind the last slash of a path.
pub open spec fn last_segment(s: Seq<char>) -> Seq<char> {
    s.subrange(segment_start(s, s.len() as int), s.len() as int)
}

/// A character that separates the parts of a path on some platform.
pub open spec fn separator(c: char) -> bool {
    c == '/' || c == '\\'
}

/// A path that starts with two separators, which a platform may take for the
/// name of a machine or of a device.
pub open spec fn doubled(s: Seq<char>) -> bool {
    s.len() >= 2 && separator(s[0]) && separator(s[1])
}

/// A path with slashes alone between its parts, whose last part is a name.
pub open spec fn ordinary(s: Seq<char>) -> bool {
    &&& !doubled(s)
    &&& !s.contains('\\')
    &&& !s.contains(':')
    &&& last_segment(s).len() > 0
    &&& last_segment(s) != "."@
    &&& last_segment(s) != ".."@
}

/// Index of the last dot before `i`; -1 where there is none.
pub open spec fn last_dot(s: Seq<char>, i: int) -> int
    decreases i,
{
    if i <= 0 {
        -1
    } else if s[i - 1] == '.' {
        i - 1
    } else {
        last_dot(s, i - 1)
    }
}

/// What stands behind the last dot of a file name, unless the name starts
/// with it. The name of the parent directory has no extension.
pub open spec fn name_extension(name: Seq<char>) -> Option<Seq<char>> {
    let k = last_dot(name, name.len() as int);
    if k <= 0 || name == ".."@ {
        None
    } else {
        Some(name.subrange(k + 1, name.len() as int))
    }
}

/// What an optional string holds.
pub open spec fn option_text(s: Option<String>) -> Option<Seq<char>> {
    match s {
        Some(s) => Some(s@),
        None => None,
    }
}

/// What an optional string slice holds.
pub open spec fn option_str(s: Option<&str>) -> Option<Seq<char>> {
    match s {
        Some(s) => Some(s@),
        None => None,
    }
}

/// Where what no platform divides starts in a path, looking back from `i`:
/// behind the last slash, backslash or colon.
pub open spec fn part_start(s: Seq<char>, i: int) -> int
    decreases i,
{
    if i <= 0 {
        0
    } else if separator(s[i - 1]) || s[i - 1] == ':' {
        i
    } else {
        part_start(s, i - 1)
    }
}

/// What stands behind the last slash, backslash or colon of a path.
pub open spec fn last_part(s: Seq<char>) -> Seq<char> {
    s.subrange(part_start(s, s.len() as int), s.len() as int)
}

/// A path whose last part has a dot that is not its first character, so that
/// every platform reads the same extension.
pub open spec fn dotted_name(s: Seq<char>) -> bool {
    &&& !doubled(s)
    &&& last_part(s) != ".."@
    &&& last_dot(last_part(s), last_part(s).len() as int) > 0
}

/// A path of which every platform reads the same extension, or none.
pub open spec fn settled(s: Seq<char>) -> bool {
    dotted_name(s) || ordinary(s) || !s.contains('.')
}

/// The extension that every platform reads of a path; `None` where there is
/// none.
pub open spec fn extension_in(s: Seq<char>) -> Option<Seq<char>> {
    if dotted_name(s) {
        name_extension(last_part(s))
    } else if ordinary(s) {
        name_extension(last_segment(s))
    } else {
        None
    }
}

/// A platform may read this extension of a path: the one that all of them read,
/// where they agree, and in any case what stands behind some dot of the path up
/// to the next dot.
pub open spec fn reads_extension(s: Seq<char>, ext: Option<Seq<char>>) -> bool {
    &&& settled(s) ==> ext == extension_in(s)
    &&& ext is Some ==> contains(s, seq!['.'] + ext->0) && !(ext->0).contains('.')
}

/// `Path::extension`. Of a path whose part behind the last slash, backslash or
/// colon has a dot that is not its first character, the extension is what stands
/// behind the last dot. Of a path with slashes alone between its parts that ends
/// in a name, the name tells, and a path without a dot has no extension. Paths
/// that start with two separators are left out. What separates the parts of
/// other paths depends on the platform, so of them no more is said than that an
/// extension stands behind a dot and has none itself.
#[verifier::external_body]
pub(crate) fn extension_of(path: &str) -> (r: Option<String>)
    ensures
        reads_extension(path@, option_text(r)),
{
    std::path::Path::new(path).extension().and_then(|e| e.to_str()).map(|e| e.to_owned())
}

/// A path that starts from another one: it has no root and no drive, and
/// slashes alone between its parts.
pub open spec fn relative(s: Seq<char>) -> bool {
    &&& s.len() > 0 ==> s[0] != '/'
    &&& !s.contains('\\')
    &&& !s.contains(':')
}

/// What stands between a directory and a name behind it: nothing where the
/// directory ends in a separator or a colon, else one separator.
pub open spec fn separates(dir: Seq<char>, separator: Seq<char>) -> bool {
    if separator.len() == 0 {
        dir.last() == '/' || dir.last() == '\\' || dir.last() == ':'
    } else {
        dir.last() != '/' && (separator == "/"@ || separator == "\\"@)
    }
}

/// A path with the prefix `\\?\`, which has rules of its own.
pub open spec fn verbatim(s: Seq<char>) -> bool {
    occurs_at(s, "\\\\?\\"@, 0)
}

/// The path of something in a directory: the name behind the directory, with a
/// separator between them where one is needed.
pub open spec fn joins_path(dir: Seq<char>, name: Seq<char>, path: Seq<char>) -> bool {
    if verbatim(dir) {
        true
    } else if dir.len() == 0 {
        path == name
    } else {
        exists|separator: Seq<char>| #[trigger]
            separates(dir, separator) && path == dir + separator + name
    }
}

/// The name stands behind a directory or behind its start. Where it is behind the
/// whole directory, a separator may stand between them.
pub open spec fn stands_behind(
    dir: Seq<char>,
    n: int,
    separator: Seq<char>,
    name: Seq<char>,
    path: Seq<char>,
) -> bool {
    &&& 0 <= n <= dir.len()
    &&& separator.len() > 0 ==> n == dir.len() && (separator == "/"@ || separator == "\\"@)
    &&& path == dir.take(n) + separator + name
}

/// A path that may start with the name of a drive, a machine or a device, which a
/// path from the root behind it keeps.
pub open spec fn prefixed(s: Seq<char>) -> bool {
    doubled(s) || (s.len() >= 2 && s[1] == ':')
}

/// A path from the root.
pub open spec fn rooted(s: Seq<char>) -> bool {
    s.len() > 0 && s[0] == '/'
}

/// A platform may join a directory and a name to this path.
pub open spec fn adjoins(dir: Seq<char>, name: Seq<char>, path: Seq<char>) -> bool {
    verbatim(dir) || {
        &&& exists|n: int, separator: Seq<char>| stands_behind(dir, n, separator, name, path)
        &&& relative(name) ==> joins_path(dir, name, path)
        &&& rooted(name) && !prefixed(dir) ==> path == name
    }
}

/// `Path::join`. A relative path comes behind the directory, with one separator
/// between them unless none is needed; which one it is depends on the platform.
/// A path that starts with a slash replaces a directory, all but the drive, the
/// machine or the device that this may start with. Any other path comes behind the
/// directory, or in place of it, or in place of all but its start. Nothing is said
/// of directories with the prefix `\\?\`, whose paths a platform may put in order.
#[verifier::external_body]
pub(crate) fn join_path(dir: &str, name: &str) -> (path: String)
    ensures
        adjoins(dir@, name@, path@),
{
    std::path::Path::new(dir).join(name).to_string_lossy().into_owned()
}

/// The path ends in a name that was joined to a directory.
pub proof fn lemma_adjoined_end(dir: Seq<char>, name: Seq<char>, path: Seq<char>)
    requires
        adjoins(dir, name, path),
        !verbatim(dir),
    ensures
        ends_in(path, name),
{
    let (n, separator) = choose|n: int, separator: Seq<char>|
        stands_behind(dir, n, separator, name, path);
    assert(stands_behind(dir, n, separator, name, path));
    let front = dir.take(n) + separator;
    assert(path.skip(path.len() - name.len()) =~= name);
}

/// The path ends in a text.
pub open spec fn ends_in(path: Seq<char>, text: Seq<char>) -> bool {
    text.len() <= path.len() && path.skip(path.len() - text.len()) == text
}

/// `Path::is_absolute`. A path that neither starts with a slash nor has a
/// backslash or a colon is not absolute; of others the platform decides.
#[verifier::external_body]
pub(crate) fn is_absolute(path: &str) -> (r: bool)
    ensures
        relative(path@) ==> !r,
{
    std::path::Path::new(path).is_absolute()
}

/// The path without its last part and the slash before it.
pub open spec fn before_last(s: Seq<char>) -> Seq<char> {
    s.subrange(0, segment_start(s, s.len() as int) - 1)
}

/// The directory that an ordinary path is in, which is empty where the path has
/// only one part.
pub open spec fn containing(s: Seq<char>) -> Seq<char> {
    let start = segment_start(s, s.len() as int);
    if start == 0 {
        Seq::empty()
    } else if start == 1 {
        "/"@
    } else {
        before_last(s)
    }
}

/// An ordinary path whose last part but one is a name too, or which has no
/// more than one part.
pub open spec fn tidy_path(s: Seq<char>) -> bool {
    &&& ordinary(s)
    &&& segment_start(s, s.len() as int) > 1 ==> {
        &&& last_segment(before_last(s)).len() > 0
        &&& last_segment(before_last(s)) != "."@
    }
}

/// A platform may give this for the directory that a path is in: of a path of
/// names with single slashes between them what stands before its last slash, for
/// the root nothing, and in any case a start of the path that is shorter.
pub open spec fn reads_parent(s: Seq<char>, parent: Option<Seq<char>>) -> bool {
    &&& tidy_path(s) ==> parent == Some(containing(s))
    &&& s == "/"@ ==> parent is None
    &&& parent is Some ==> (parent->0).len() < s.len() && s.take((parent->0).len() as int)
        == parent->0
}

/// `Path::parent`: the path without its last part. A path of names with single
/// slashes between them is in the directory before its last slash; the root is
/// in none. Of other paths no more is said than that a shorter start of the path
/// is left, or nothing.
#[verifier::external_body]
pub(crate) fn parent_of(path: &str) -> (r: Option<String>)
    ensures
        reads_parent(path@, option_text(r)),
{
    std::path::Path::new(path).parent().map(|p| p.to_string_lossy().into_owned())
}

/// Index of the last dot of a name, if it has one.
pub(crate) fn find_last_dot(chars: &Vec<char>) -> (r: Option<usize>)
    ensures
        (match r {
            Some(k) => k as int,
            None => -1int,
        }) == last_dot(chars@, chars@.len() as int),
        r is Some ==> r->0 < chars@.len(),
{
    let mut i: usize = chars.len();
    while i > 0
        invariant
            i <= chars@.len(),
            last_dot(chars@, i as int) == last_dot(chars@, chars@.len() as int),
        decreases i,
    {
        if chars[i - 1] == '.' {
            return Some(i - 1);
        }
        i -= 1;
    }
    None
}

/// What stands behind the last dot of a file name, unless the name starts
/// with it.
pub fn extension_of_name(name: &str) -> (r: Option<String>)
    ensures
        option_text(r) == name_extension(name@),
{
    let chars = chars_of(name);
    let total = chars.len();
    match find_last_dot(&chars) {
        Some(k) => if k == 0 || same(name, "..") {
            None
        } else {
            Some(string_of(&chars, k + 1, total))
        },
        None => None,
    }
}

/// A file name up to its last dot; the whole name where it has none.
pub open spec fn stem(name: Seq<char>) -> Seq<char> {
    let k = last_dot(name, name.len() as int);
    if k < 0 {
        name
    } else {
        name.subrange(0, k)
    }
}

/// A file name up to its last dot; the whole name where it has none.
pub fn stem_of(name: &str) -> (r: String)
    ensures
        r@ == stem(name@),
{
    let chars = chars_of(name);
    match find_last_dot(&chars) {
        Some(k) => string_of(&chars, 0, k),
        None => name.to_owned(),
    }
}

} // verus!
