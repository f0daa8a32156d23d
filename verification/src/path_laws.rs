//! What every path is read to name.

use vstd::prelude::*;

use crate::number_laws::{dotted, law_extensions_of_names};
use crate::paths::{
    containing, dotted_name, extension_in, last_part, last_segment, part_start, segment_start,
    settled, tidy_path,
};

verus! {

/// A name without a character that some platform takes for a separator.
pub open spec fn undivided(s: Seq<char>) -> bool {
    &&& !s.contains('/')
    &&& !s.contains('\\')
    &&& !s.contains(':')
}

/// A name in a directory.
pub open spec fn inside_of(dir: Seq<char>, name: Seq<char>) -> Seq<char> {
    dir + seq!['/'] + name
}

proof fn lemma_starts(s: Seq<char>, from: int, i: int)
    requires
        0 <= from <= i <= s.len(),
        from > 0 ==> s[from - 1] == '/',
        forall|k: int| from <= k < i ==> #[trigger] s[k] != '/' && s[k] != '\\' && s[k] != ':',
    ensures
        segment_start(s, i) == from,
        part_start(s, i) == from,
    decreases i,
{
    if i > from {
        assert(s[i - 1] != '/');
        lemma_starts(s, from, i - 1);
    }
}

proof fn lemma_parts(dir: Seq<char>, name: Seq<char>)
    requires
        undivided(name),
    ensures
        ({
            let s = inside_of(dir, name);
            &&& segment_start(s, s.len() as int) == dir.len() + 1
            &&& part_start(s, s.len() as int) == dir.len() + 1
            &&& last_segment(s) == name
            &&& last_part(s) == name
            &&& s.subrange(0, dir.len() as int) == dir
        }),
{
    let s = inside_of(dir, name);
    let from = dir.len() + 1;
    assert forall|k: int| from <= k < s.len() implies #[trigger] s[k] != '/' && s[k] != '\\'
        && s[k] != ':' by {
        assert(s[k] == name[k - from]);
        assert(name.contains(name[k - from]));
    }
    lemma_starts(s, from as int, s.len() as int);
    assert(s.subrange(from as int, s.len() as int) =~= name);
    assert(s.subrange(0, dir.len() as int) =~= dir);
}

/// The extension of a file in a directory is what its name has behind the last dot;
/// dots in the directory's name do not count.
pub proof fn law_extensions_of_paths(dir: Seq<char>, name: Seq<char>, ext: Seq<char>)
    requires
        undivided(name),
        undivided(ext),
        name.len() > 0,
        ext.len() > 0,
        !ext.contains('.'),
        dir.len() > 0 ==> dir[0] != '/' && dir[0] != '\\' || dir.len() > 1 && dir[1] != '/'
            && dir[1] != '\\',
    ensures
        settled(inside_of(dir, dotted(name, ext))),
        extension_in(inside_of(dir, dotted(name, ext))) == Some(ext),
{
    let file = dotted(name, ext);
    let s = inside_of(dir, file);
    assert forall|c: char| c == '/' || c == '\\' || c == ':' implies !(#[trigger] file.contains(
        c,
    )) by {
        if file.contains(c) {
            let i = choose|i: int| 0 <= i < file.len() && file[i] == c;
            if i < name.len() {
                assert(name.contains(name[i]));
            } else if i > name.len() {
                assert(file[i] == ext[i - name.len() - 1]);
                assert(ext.contains(ext[i - name.len() - 1]));
            }
        }
    }
    lemma_parts(dir, file);
    law_extensions_of_names(name, ext);
    if dir.len() == 0 {
        assert(s[0] == '/');
        assert(s[1] == file[0]);
        assert(file.contains(file[0]));
    } else {
        assert(s[0] == dir[0]);
        if dir.len() > 1 {
            assert(s[1] == dir[1]);
        }
    }
    assert(dotted_name(s));
}

/// A path of names with single slashes between them is in what stands before its last
/// slash.
pub proof fn law_directories_of_paths(dir: Seq<char>, name: Seq<char>)
    requires
        undivided(name),
        tidy_path(inside_of(dir, name)),
    ensures
        dir.len() > 0 ==> containing(inside_of(dir, name)) == dir,
        dir.len() == 0 ==> containing(inside_of(dir, name)) == "/"@,
        tidy_path(name) ==> containing(name) == Seq::<char>::empty(),
{
    lemma_parts(dir, name);
    assert forall|k: int| 0 <= k < name.len() implies #[trigger] name[k] != '/' && name[k] != '\\'
        && name[k] != ':' by {
        assert(name.contains(name[k]));
    }
    lemma_starts(name, 0, name.len() as int);
}

} // verus!
