//! File-name and path arithmetic: stems, extensions, the tag-file
//! naming convention, and components of canonical `/`-separated paths.
//!
//! A name splits at its last dot, unless that dot leads the name: what
//! precedes the dot is the stem, what follows it the extension. A name
//! whose extension is exactly `tags` marks a tag file.

use vstd::prelude::*;

verus! {

/// The index of the last occurrence of `c` in `s`, or -1 when `c` does
/// not occur.
pub open spec fn last_index_of(s: Seq<char>, c: char) -> int
    decreases s.len(),
{
    if s.len() == 0 {
        -1
    } else if s[s.len() - 1] == c {
        s.len() - 1
    } else {
        last_index_of(s.drop_last(), c)
    }
}

proof fn lemma_last_index_of(s: Seq<char>, c: char)
    ensures
        -1 <= last_index_of(s, c) < s.len(),
        last_index_of(s, c) >= 0 ==> s[last_index_of(s, c)] == c,
        forall|j: int| last_index_of(s, c) < j < s.len() ==> s[j] != c,
    decreases s.len(),
{
    if s.len() == 0 {
    } else if s[s.len() - 1] == c {
    } else {
        lemma_last_index_of(s.drop_last(), c);
        assert forall|j: int| last_index_of(s, c) < j < s.len() implies s[j] != c by {
            if j < s.len() - 1 {
                assert(s.drop_last()[j] == s[j]);
            }
        }
    }
}

proof fn lemma_last_index_of_at(s: Seq<char>, c: char, i: int)
    requires
        0 <= i < s.len(),
        s[i] == c,
        forall|j: int| i < j < s.len() ==> s[j] != c,
    ensures
        last_index_of(s, c) == i,
    decreases s.len(),
{
    if i == s.len() - 1 {
    } else {
        assert(s[s.len() - 1] != c);
        assert(s.drop_last()[i] == c);
        assert(forall|j: int| i < j < s.len() - 1 ==> #[trigger] s.drop_last()[j] == s[j]);
        lemma_last_index_of_at(s.drop_last(), c, i);
    }
}

proof fn lemma_last_index_of_absent(s: Seq<char>, c: char)
    requires
        forall|j: int| 0 <= j < s.len() ==> s[j] != c,
    ensures
        last_index_of(s, c) == -1,
    decreases s.len(),
{
    if s.len() > 0 {
        assert(forall|j: int| 0 <= j < s.len() - 1 ==> #[trigger] s.drop_last()[j] == s[j]);
        lemma_last_index_of_absent(s.drop_last(), c);
    }
}

/// Where a file name's extension begins, as the index of the separating
/// dot: the last dot of the name, unless that dot is the leading
/// character. -1 when the name has no extension.
pub open spec fn ext_dot(name: Seq<char>) -> int {
    if last_index_of(name, '.') > 0 {
        last_index_of(name, '.')
    } else {
        -1
    }
}

/// A file name minus its extension and the separating dot; the whole
/// name when it has no extension.
pub open spec fn stem_of(name: Seq<char>) -> Seq<char> {
    if ext_dot(name) >= 0 {
        name.subrange(0, ext_dot(name))
    } else {
        name
    }
}

/// A file name's extension, without the separating dot. Meaningful only
/// when `ext_dot(name) >= 0`.
pub open spec fn extension_of(name: Seq<char>) -> Seq<char> {
    name.subrange(ext_dot(name) + 1, name.len() as int)
}

/// The extension that marks a tag file.
pub open spec fn tags_ext() -> Seq<char> {
    seq!['t', 'a', 'g', 's']
}

/// The reserved tag-file name whose tags attach to the containing
/// directory itself.
pub open spec fn dir_tags_name() -> Seq<char> {
    seq!['d', 'i', 'r', '.', 't', 'a', 'g', 's']
}

/// Whether a file name follows the tag-file naming convention: it has
/// an extension and the extension is `tags`.
pub open spec fn is_tag_name(name: Seq<char>) -> bool {
    ext_dot(name) >= 0 && extension_of(name) == tags_ext()
}

/// The last component of a `/`-separated path: everything after the
/// final separator, or the whole path when it has none.
pub open spec fn file_name_of(path: Seq<char>) -> Seq<char> {
    path.subrange(last_index_of(path, '/') + 1, path.len() as int)
}

/// Whether a path's last component names a tag file.
pub open spec fn is_tag_path(path: Seq<char>) -> bool {
    is_tag_name(file_name_of(path))
}

/// The parent of a canonical absolute path: the path up to its last
/// separator, or `/` when that separator leads the path.
pub open spec fn parent_of(path: Seq<char>) -> Seq<char> {
    if last_index_of(path, '/') > 0 {
        path.subrange(0, last_index_of(path, '/'))
    } else {
        seq!['/']
    }
}

/// Finds the last occurrence of a character.
fn find_last(s: &str, c: char) -> (r: Option<usize>)
    ensures
        match r {
            Some(i) => i == last_index_of(s@, c) && i < s@.len(),
            None => last_index_of(s@, c) == -1,
        },
{
    let n = s.unicode_len();
    let mut i = n;
    while i > 0
        invariant
            i <= n,
            n == s@.len(),
            forall|j: int| i <= j < s@.len() ==> s@[j] != c,
        decreases i,
    {
        i = i - 1;
        let ch = s.get_char(i);
        if ch == c {
            proof {
                lemma_last_index_of_at(s@, c, i as int);
            }
            return Some(i);
        }
    }
    proof {
        lemma_last_index_of_absent(s@, c);
    }
    None
}

/// The stem of a file name.
pub fn name_stem(name: &str) -> (r: String)
    ensures
        r@ == stem_of(name@),
{
    match find_last(name, '.') {
        Some(k) if k > 0 => name.substring_char(0, k).to_owned(),
        _ => name.to_owned(),
    }
}

/// Whether a file name follows the tag-file naming convention.
pub fn name_is_tag_file(name: &str) -> (r: bool)
    ensures
        r == is_tag_name(name@),
{
    let n = name.unicode_len();
    match find_last(name, '.') {
        Some(k) if k > 0 => {
            let ext = name.substring_char(k + 1, n);
            let r = ext.to_owned().eq(&String::from_str("tags"));
            proof {
                reveal_strlit("tags");
                assert("tags"@ =~= tags_ext());
            }
            r
        },
        _ => false,
    }
}

/// Whether a file name is exactly the reserved name `dir.tags`.
pub fn name_is_dir_tags(name: &String) -> (r: bool)
    ensures
        r == (name@ == dir_tags_name()),
{
    let pat = String::from_str("dir.tags");
    proof {
        reveal_strlit("dir.tags");
        assert(pat@ =~= dir_tags_name());
    }
    name.eq(&pat)
}

/// The last component of a canonical `/`-separated path.
pub fn path_file_name(path: &str) -> (r: String)
    ensures
        r@ == file_name_of(path@),
{
    let n = path.unicode_len();
    match find_last(path, '/') {
        Some(k) => path.substring_char(k + 1, n).to_owned(),
        None => {
            proof {
                assert(path@.subrange(0, path@.len() as int) =~= path@);
            }
            path.to_owned()
        },
    }
}

/// Whether a canonical path names a tag file.
pub fn path_is_tag_file(path: &str) -> (r: bool)
    ensures
        r == is_tag_path(path@),
{
    let name = path_file_name(path);
    name_is_tag_file(name.as_str())
}

/// The parent of a canonical absolute path.
pub fn path_parent(path: &str) -> (r: String)
    ensures
        r@ == parent_of(path@),
{
    match find_last(path, '/') {
        Some(k) if k > 0 => path.substring_char(0, k).to_owned(),
        _ => {
            let r = String::from_str("/");
            proof {
                reveal_strlit("/");
                assert(r@ =~= seq!['/']);
            }
            r
        },
    }
}

} // verus!
