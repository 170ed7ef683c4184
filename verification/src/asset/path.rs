//! Paths as text: components are parted by `/`, and the extension of a path
//! is what follows the last `.` of its last component. Slashes at the end of
//! a path, and dots there that stand for the directory itself, name nothing.

use vstd::prelude::*;
use vstd::string::{StrSliceExecFns, StringExecFns};

verus! {

/// The position of the last `c` in `text`, or -1 where there is none.
pub open spec fn last_index(text: Seq<char>, c: char) -> int
    decreases text.len(),
{
    if text.len() == 0 {
        -1
    } else if text.last() == c {
        text.len() - 1
    } else {
        last_index(text.drop_last(), c)
    }
}

/// The last component of a path: what follows its last `/`.
pub open spec fn file_name(path: Seq<char>) -> Seq<char> {
    path.skip(last_index(path, '/') + 1)
}

/// A path without what ends it and names nothing: a `/`, or a `.` that
/// follows a `/`.
pub open spec fn trimmed(path: Seq<char>) -> Seq<char>
    decreases path.len(),
{
    if path.len() == 0 {
        path
    } else if path.last() == '/' || (path.last() == '.' && path.len() >= 2 && path[path.len() - 2]
        == '/') {
        trimmed(path.drop_last())
    } else {
        path
    }
}

/// The extension of a path, without the dot: what follows the last `.` of
/// the last component of the trimmed path. A component that has no `.`,
/// that has its only `.` at the front, or that is `..`, has no extension.
pub open spec fn extension_of(path: Seq<char>) -> Option<Seq<char>> {
    let name = file_name(trimmed(path));
    let dot = last_index(name, '.');
    if dot <= 0 || name == seq!['.', '.'] {
        None
    } else {
        Some(name.skip(dot + 1))
    }
}

/// `path` with a dot and `ext` after it.
pub open spec fn with_extension(path: Seq<char>, ext: Seq<char>) -> Seq<char> {
    path + seq!['.'] + ext
}

/// `part` below `base`: the two with one `/` between them. An empty `base`
/// gives `part`, and so does a `part` that starts at the root.
pub open spec fn joined(base: Seq<char>, part: Seq<char>) -> Seq<char> {
    if base.len() == 0 || (part.len() > 0 && part[0] == '/') {
        part
    } else if base.last() == '/' {
        base + part
    } else {
        base + seq!['/'] + part
    }
}

/// `last_index` is -1 or a position of `c`, after which `c` does not occur.
pub proof fn lemma_last_index(text: Seq<char>, c: char)
    ensures
        -1 <= last_index(text, c) < text.len(),
        last_index(text, c) >= 0 ==> text[last_index(text, c)] == c,
        forall|i: int| last_index(text, c) < i < text.len() ==> text[i] != c,
    decreases text.len(),
{
    if text.len() > 0 && text.last() != c {
        let front = text.drop_last();
        lemma_last_index(front, c);
        assert forall|i: int| last_index(text, c) < i < text.len() implies text[i] != c by {
            if i < front.len() {
                assert(front[i] == text[i]);
            }
        }
    }
}

/// The position of the last `c` in `text`.
pub fn find_last(text: &str, c: char) -> (at: Option<usize>)
    ensures
        match at {
            Some(i) => i == last_index(text@, c),
            None => last_index(text@, c) == -1,
        },
{
    let len = text.unicode_len();
    let mut at: Option<usize> = None;
    let mut i: usize = 0;
    while i < len
        invariant
            i <= len,
            len == text@.len(),
            match at {
                Some(j) => j == last_index(text@.take(i as int), c),
                None => last_index(text@.take(i as int), c) == -1,
            },
        decreases len - i,
    {
        proof {
            assert(text@.take(i + 1).drop_last() == text@.take(i as int));
        }
        if text.get_char(i) == c {
            at = Some(i);
        }
        i += 1;
    }
    proof {
        assert(text@.take(len as int) == text@);
    }
    at
}

/// The length of the trimmed path.
pub fn trimmed_len(text: &str) -> (end: usize)
    ensures
        end <= text@.len(),
        text@.take(end as int) == trimmed(text@),
{
    let mut end = text.unicode_len();
    let mut done = false;
    proof {
        assert(text@.take(end as int) == text@);
    }
    while end > 0 && !done
        invariant
            end <= text@.len(),
            trimmed(text@.take(end as int)) == trimmed(text@),
            done ==> trimmed(text@.take(end as int)) == text@.take(end as int),
        decreases end + if done { 0int } else { 1int },
    {
        let last = text.get_char(end - 1);
        let ghost front = text@.take(end as int);
        proof {
            assert(front.last() == last);
            assert(front.drop_last() == text@.take(end - 1));
        }
        if last == '/' {
            end -= 1;
        } else if last == '.' && end >= 2 && text.get_char(end - 2) == '/' {
            proof {
                assert(front[front.len() - 2] == '/');
            }
            end -= 1;
        } else {
            proof {
                if front.len() >= 2 {
                    assert(front[front.len() - 2] == text@[end - 2]);
                }
            }
            done = true;
        }
    }
    end
}

/// Whether two texts are the same.
pub fn same_text(a: &str, b: &str) -> (same: bool)
    ensures
        same == (a@ == b@),
{
    String::from_str(a) == String::from_str(b)
}

/// `part` below `base`.
pub fn join(base: &str, part: &str) -> (path: String)
    ensures
        path@ == joined(base@, part@),
{
    let base_len = base.unicode_len();
    let part_len = part.unicode_len();
    if base_len == 0 || (part_len > 0 && part.get_char(0) == '/') {
        String::from_str(part)
    } else if base.get_char(base_len - 1) == '/' {
        String::from_str(base).concat(part)
    } else {
        proof {
            reveal_strlit("/");
            assert("/"@ =~= seq!['/']);
        }
        String::from_str(base).concat("/").concat(part)
    }
}

/// What a path offers beyond its text.
pub trait PathExt {
    /// The path as text.
    spec fn text(&self) -> Seq<char>;

    /// The path with a dot and `ext` after it.
    fn append_extension(&self, ext: &str) -> (path: String)
        ensures
            path@ == with_extension(self.text(), ext@),
    ;

    /// The extension of the path.
    fn ext(&self) -> (ext: Option<String>)
        ensures
            match ext {
                Some(e) => extension_of(self.text()) == Some(e@),
                None => extension_of(self.text()) is None,
            },
    ;
}

impl PathExt for str {
    open spec fn text(&self) -> Seq<char> {
        self@
    }

    fn append_extension(&self, ext: &str) -> (path: String) {
        proof {
            reveal_strlit(".");
            assert("."@ =~= seq!['.']);
        }
        String::from_str(self).concat(".").concat(ext)
    }

    fn ext(&self) -> (ext: Option<String>) {
        let len = trimmed_len(self);
        let head = self.substring_char(0, len);
        proof {
            assert(head@ == trimmed(self@));
            lemma_last_index(head@, '/');
        }
        let start = match find_last(head, '/') {
            Some(slash) => slash + 1,
            None => 0,
        };
        let name = head.substring_char(start, len);
        let name_len = len - start;
        proof {
            assert(name@ == file_name(head@));
            lemma_last_index(name@, '.');
        }
        match find_last(name, '.') {
            Some(dot) => {
                if dot == 0 {
                    None
                } else if name_len == 2 && dot == 1 && name.get_char(0) == '.' {
                    proof {
                        assert(name@ =~= seq!['.', '.']);
                    }
                    None
                } else {
                    proof {
                        if name@ == seq!['.', '.'] {
                            assert(name@[0] == '.');
                            assert(name@.len() == 2);
                        }
                    }
                    Some(String::from_str(name.substring_char(dot + 1, name_len)))
                }
            },
            None => None,
        }
    }
}

} // verus!
