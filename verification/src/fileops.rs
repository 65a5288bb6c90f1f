//! What is decided before a file is deleted or replaced by a hard link.

use crate::text::chars_of;
use vstd::prelude::*;

verus! {

/// An ASCII letter in lower case, and any other character as it is.
pub open spec fn ascii_lowered(c: char) -> char {
    if 'A' <= c <= 'Z' {
        ((c as u8) + 32) as u8 as char
    } else {
        c
    }
}

/// Whether two texts are equal but for the case of their ASCII letters.
pub open spec fn same_ignoring_case(a: Seq<char>, b: Seq<char>) -> bool {
    a.len() == b.len() && forall|i: int| 0 <= i < a.len() ==> ascii_lowered(#[trigger] a[i]) == ascii_lowered(b[i])
}

/// Where `c` last stands in a text; minus one where it stands nowhere.
pub open spec fn last_index_of(s: Seq<char>, c: char) -> int
    decreases s.len(),
{
    if s.len() == 0 {
        -1
    } else if s.last() == c {
        s.len() - 1
    } else {
        last_index_of(s.drop_last(), c)
    }
}

/// The last component of a path whose components are separated by `/`.
pub open spec fn file_name_of(path: Seq<char>) -> Seq<char> {
    path.skip(last_index_of(path, '/') + 1)
}

/// The extension of the file at a path: what follows the last `.` of the file name. A
/// name without `.`, or with none but the one it begins with, has no extension.
pub open spec fn extension_of(path: Seq<char>) -> Option<Seq<char>> {
    let name = file_name_of(path);
    let dot = last_index_of(name, '.');
    if dot <= 0 {
        None
    } else {
        Some(name.skip(dot + 1))
    }
}

/// Whether an extension is that of a supported audio file: `flac`, in any case.
pub open spec fn is_supported(extension: Seq<char>) -> bool {
    same_ignoring_case(extension, seq!['f', 'l', 'a', 'c'])
}

/// Whether the file at a path has the extension of a supported audio file.
pub open spec fn is_audio_path(path: Seq<char>) -> bool {
    extension_of(path) is Some && is_supported(extension_of(path)->0)
}

/// `last_index_of` is the position at which `c` stands and after which it does not.
pub proof fn lemma_last_index_at(s: Seq<char>, c: char, n: int)
    requires
        -1 <= n < s.len(),
        n >= 0 ==> s[n] == c,
        forall|i: int| n < i < s.len() ==> s[i] != c,
    ensures
        last_index_of(s, c) == n,
    decreases s.len(),
{
    if s.len() > 0 && s.last() != c {
        lemma_last_index_at(s.drop_last(), c, n);
    }
}

/// An ASCII letter in lower case.
fn ascii_lower(c: char) -> (r: char)
    ensures
        r == ascii_lowered(c),
{
    if 'A' <= c && c <= 'Z' {
        let code: u8 = c as u8 + 32;
        code as char
    } else {
        c
    }
}

/// Where `c` last stands among the characters of `v` from `from` on.
fn last_position(v: &Vec<char>, from: usize, c: char) -> (r: Option<usize>)
    requires
        from <= v.len(),
    ensures
        match r {
            Some(n) => from <= n < v.len() && last_index_of(v@.skip(from as int), c) == n - from,
            None => last_index_of(v@.skip(from as int), c) == -1,
        },
{
    let ghost part = v@.skip(from as int);
    let mut n: usize = v.len();
    while n > from
        invariant
            from <= n <= v.len(),
            part == v@.skip(from as int),
            forall|i: int| n <= i < v.len() ==> v@[i] != c,
        decreases n,
    {
        if v[n - 1] == c {
            proof {
                assert forall|i: int| n - 1 - from < i < part.len() implies part[i] != c by {
                    assert(part[i] == v@[from + i]);
                }
                lemma_last_index_at(part, c, n - 1 - from);
            }
            return Some(n - 1);
        }
        n -= 1;
    }
    proof {
        assert forall|i: int| -1 < i < part.len() implies part[i] != c by {
            assert(part[i] == v@[from + i]);
        }
        lemma_last_index_at(part, c, -1);
    }
    None
}

/// Whether the file at a path has the extension of a supported audio file.
pub fn is_audio_file(path: &str) -> (audio: bool)
    ensures
        audio == is_audio_path(path@),
{
    let v = chars_of(path);
    let start: usize = match last_position(&v, 0, '/') {
        Some(n) => n + 1,
        None => 0,
    };
    assert(v@.skip(0) == v@);
    let ghost name = file_name_of(path@);
    assert(name == v@.skip(start as int));
    let dot: usize = match last_position(&v, start, '.') {
        Some(n) => n,
        None => {
            return false;
        },
    };
    if dot == start {
        return false;
    }
    let ghost ext = name.skip(dot - start + 1);
    assert(extension_of(path@) == Some(ext));
    assert(ext =~= v@.skip(dot + 1));
    if v.len() - (dot + 1) != 4 {
        assert(seq!['f', 'l', 'a', 'c'].len() == 4);
        return false;
    }
    let ghost want = seq!['f', 'l', 'a', 'c'];
    let same = ascii_lower(v[dot + 1]) == 'f' && ascii_lower(v[dot + 2]) == 'l' && ascii_lower(v[dot + 3]) == 'a'
        && ascii_lower(v[dot + 4]) == 'c';
    proof {
        assert(ext[0] == v@[dot + 1] && ext[1] == v@[dot + 2] && ext[2] == v@[dot + 3] && ext[3] == v@[dot + 4]);
        assert(want[0] == 'f' && want[1] == 'l' && want[2] == 'a' && want[3] == 'c');
        assert(ascii_lowered('f') == 'f' && ascii_lowered('l') == 'l' && ascii_lowered('a') == 'a'
            && ascii_lowered('c') == 'c');
        if same {
            assert forall|i: int| 0 <= i < ext.len() implies ascii_lowered(#[trigger] ext[i]) == ascii_lowered(
                want[i],
            ) by {
                if i == 0 {
                } else if i == 1 {
                } else if i == 2 {
                } else {
                }
            }
        }
    }
    same
}

/// Whether some of the files named holds audio.
pub open spec fn holds_audio(names: Seq<String>) -> bool {
    exists|i: int| 0 <= i < names.len() && is_audio_path(#[trigger] names[i]@)
}

/// Whether a directory with these entries may be removed once a file of it was deleted:
/// only if no entry is a supported audio file.
pub fn may_remove_directory(entries: &Vec<String>) -> (may: bool)
    ensures
        may == !holds_audio(entries@),
{
    let mut i: usize = 0;
    while i < entries.len()
        invariant
            i <= entries.len(),
            forall|j: int| 0 <= j < i ==> !is_audio_path(#[trigger] entries@[j]@),
        decreases entries.len() - i,
    {
        if is_audio_file(entries[i].as_str()) {
            return false;
        }
        i += 1;
    }
    true
}

/// What is done about a target file that may be replaced by a hard link to a source.
#[derive(Debug, Clone, Copy, PartialEq, Eq, Structural)]
pub enum LinkStep {
    /// Nothing: the sizes differ, or the two paths are one file already.
    Skip,
    /// The target is deleted and a hard link to the source is made in its place.
    Relink,
}

/// The step for a source and a target of the given sizes, of which `same_file` says
/// whether they are one file already.
pub open spec fn link_step_for(source_size: u64, target_size: u64, same_file: bool) -> LinkStep {
    if source_size == target_size && !same_file {
        LinkStep::Relink
    } else {
        LinkStep::Skip
    }
}

/// Decides whether a target is replaced by a hard link to a source.
pub fn link_step(source_size: u64, target_size: u64, same_file: bool) -> (step: LinkStep)
    ensures
        step == link_step_for(source_size, target_size, same_file),
{
    if source_size == target_size && !same_file {
        LinkStep::Relink
    } else {
        LinkStep::Skip
    }
}

} // verus!
