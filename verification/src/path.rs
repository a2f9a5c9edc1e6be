//! Project-relative paths as texts: hidden names, extensions and stems.
//!
//! A path is a text whose components are separated by `/`. The functions here
//! read the text only; nothing is looked up on disk.
use vstd::prelude::*;
use crate::text::{
    chars_of, find, find_char, lemma_find, lemma_rfind, push_chars, rfind, starts_with, string_of,
};

verus! {

/// The last component of `path`: what follows its last `/`.
pub open spec fn file_name(path: Seq<char>) -> Seq<char> {
    path.skip(rfind(path, '/') + 1)
}

/// The extension of `path`: what follows the last `.` of its last component.
/// There is none where that component holds no `.`, where its only `.`
/// comes first (a hidden name such as `.profile`), and where it is `..`.
pub open spec fn extension(path: Seq<char>) -> Option<Seq<char>> {
    let name = file_name(path);
    let dot = rfind(name, '.');
    if dot <= 0 || name == seq!['.', '.'] {
        None
    } else {
        Some(name.skip(dot + 1))
    }
}

/// `path` up to its first `.`; all of it where it holds none.
pub open spec fn stem(path: Seq<char>) -> Seq<char> {
    path.take(find(path, '.', 0))
}

/// The directory of `path`: what stands before its last `/`; nothing where
/// it holds none.
pub open spec fn directory(path: Seq<char>) -> Seq<char> {
    if rfind(path, '/') < 0 {
        Seq::empty()
    } else {
        path.take(rfind(path, '/'))
    }
}

/// Where an include target is looked for: a target that begins with `/` as
/// it is, any other in the directory of the including file `from` under
/// `root`.
pub open spec fn candidate(root: Seq<char>, from: Seq<char>, target: Seq<char>) -> Seq<char> {
    if target.len() > 0 && target[0] == '/' {
        target
    } else if directory(from).len() == 0 {
        root + seq!['/'] + target
    } else {
        root + seq!['/'] + directory(from) + seq!['/'] + target
    }
}

/// `path` as seen from `root`: what follows `root` and the `/` behind it.
/// There is none where `path` does not lie under `root`. Both are meant
/// without `.` and `..` and without a link on the way.
pub open spec fn relative_to(root: Seq<char>, path: Seq<char>) -> Option<Seq<char>> {
    if root.is_prefix_of(path) {
        let rest = path.skip(root.len() as int);
        if rest.len() == 0 {
            Some(rest)
        } else if rest[0] == '/' {
            Some(rest.skip(1))
        } else if root.len() > 0 && root.last() == '/' {
            Some(rest)
        } else {
            None
        }
    } else {
        None
    }
}

/// Whether `name` begins with `.`.
pub open spec fn hidden(name: Seq<char>) -> bool {
    name.len() > 0 && name[0] == '.'
}

/// Says whether a directory entry of this name is hidden.
pub fn is_hidden(name: &str) -> (yes: bool)
    ensures
        yes == hidden(name@),
{
    let chars = chars_of(name);
    chars.len() > 0 && chars[0] == '.'
}

/// The position of the last `c` in `chars[from..]`, counted from the start
/// of `chars`; `from - 1` where there is none.
fn rfind_from(chars: &Vec<char>, c: char, from: usize) -> (at: usize)
    requires
        1 <= from <= chars.len(),
    ensures
        at as int == from + rfind(chars@.skip(from as int), c),
{
    let mut i: usize = chars.len();
    while i > from
        invariant
            1 <= from <= i <= chars.len(),
            forall|j: int| i <= j < chars.len() ==> chars@[j] != c,
        decreases i,
    {
        i = i - 1;
        if chars[i] == c {
            proof {
                let tail = chars@.skip(from as int);
                let r = rfind(tail, c);
                lemma_rfind(tail, c);
                assert(tail[i - from] == c);
                if r >= 0 {
                    assert(tail[r] == chars@[from + r]);
                }
            }
            return i;
        }
    }
    proof {
        let tail = chars@.skip(from as int);
        let r = rfind(tail, c);
        lemma_rfind(tail, c);
        if r >= 0 {
            assert(tail[r] == chars@[from + r]);
        }
    }
    from - 1
}

/// Says whether the extension of `path` is `ext`.
pub fn has_extension(path: &str, ext: &str) -> (yes: bool)
    ensures
        yes == (extension(path@) == Some(ext@)),
{
    let mut chars: Vec<char> = Vec::new();
    chars.push('/');
    let mut given = chars_of(path);
    let ghost text = given@;
    chars.append(&mut given);
    let wanted = chars_of(ext);
    // `chars` is the path behind one more `/`, so that a `/` is always found.
    assert(chars@ == seq!['/'] + text);
    let slash = rfind_from(&chars, '/', 1);
    proof {
        lemma_rfind(text, '/');
        assert(chars@.skip(1) == text);
        assert(chars@.skip(slash + 1) == file_name(text));
    }
    let start = slash + 1;
    let dot = rfind_from(&chars, '.', start);
    let ghost name = file_name(text);
    proof {
        lemma_rfind(name, '.');
    }
    if dot <= start {
        return false;
    }
    if chars.len() - start == 2 && chars[start] == '.' && chars[start + 1] == '.' {
        assert(name == seq!['.', '.']);
        return false;
    }
    assert(name != seq!['.', '.']) by {
        if name == seq!['.', '.'] {
            assert(name[0] == '.' && name[1] == '.');
            assert(name.len() == 2);
        }
    }
    let ghost found = name.skip(dot - start + 1);
    assert(extension(text) == Some(found));
    assert(found == chars@.skip(dot + 1));
    if chars.len() - (dot + 1) != wanted.len() {
        return false;
    }
    let mut i: usize = 0;
    while i < wanted.len()
        invariant
            i <= wanted.len(),
            dot + 1 + wanted.len() == chars.len(),
            found == chars@.skip(dot + 1),
            extension(path@) == Some(found),
            wanted@ == ext@,
            forall|j: int| 0 <= j < i ==> found[j] == wanted@[j],
        decreases wanted.len() - i,
    {
        if chars[dot + 1 + i] != wanted[i] {
            assert(found[i as int] != wanted@[i as int]);
            return false;
        }
        i = i + 1;
    }
    assert(found =~= wanted@);
    true
}

/// Where the include `target`, written in the file `from`, is looked for
/// under `root`.
pub fn candidate_path(root: &str, from: &str, target: &str) -> (out: String)
    ensures
        out@ == candidate(root@, from@, target@),
{
    let wanted = chars_of(target);
    let mut out = String::new();
    if wanted.len() > 0 && wanted[0] == '/' {
        push_chars(&mut out, &wanted, 0, wanted.len());
        assert(wanted@.subrange(0, wanted@.len() as int) =~= wanted@);
        assert(out@ =~= target@);
        return out;
    }
    let mut chars: Vec<char> = Vec::new();
    chars.push('/');
    let mut given = chars_of(from);
    let ghost text = given@;
    chars.append(&mut given);
    assert(chars@ == seq!['/'] + text);
    let slash = rfind_from(&chars, '/', 1);
    proof {
        lemma_rfind(text, '/');
        assert(chars@.skip(1) == text);
    }
    let base = chars_of(root);
    push_chars(&mut out, &base, 0, base.len());
    assert(base@.subrange(0, base@.len() as int) =~= base@);
    out.push('/');
    if slash > 1 {
        push_chars(&mut out, &chars, 1, slash);
        assert(chars@.subrange(1, slash as int) =~= directory(text));
        out.push('/');
    } else {
        assert(directory(text).len() == 0);
    }
    push_chars(&mut out, &wanted, 0, wanted.len());
    assert(wanted@.subrange(0, wanted@.len() as int) =~= wanted@);
    assert(out@ =~= candidate(root@, from@, target@));
    out
}

/// `path` as seen from `root`, if it lies under it.
pub fn strip_root(root: &str, path: &str) -> (out: Option<String>)
    ensures
        out.is_some() == relative_to(root@, path@).is_some(),
        out matches Some(rest) ==> Some(rest@) == relative_to(root@, path@),
{
    let base = chars_of(root);
    let chars = chars_of(path);
    if !starts_with(&chars, &base) {
        return None;
    }
    let ghost rest = path@.skip(root@.len() as int);
    let from = base.len();
    if from == chars.len() {
        let out = String::new();
        assert(out@ =~= rest);
        return Some(out);
    }
    assert(rest[0] == chars@[from as int]);
    if chars[from] == '/' {
        let out = string_of(&chars, from + 1, chars.len());
        assert(out@ =~= rest.skip(1));
        Some(out)
    } else if from > 0 && base[from - 1] == '/' {
        let out = string_of(&chars, from, chars.len());
        assert(out@ =~= rest);
        Some(out)
    } else {
        None
    }
}

/// `source` without its extension: the text before its first `.`.
pub fn strip_extesion(source: &str) -> (out: String)
    ensures
        out@ == stem(source@),
{
    let chars = chars_of(source);
    let dot = find_char(&chars, '.', 0);
    proof {
        lemma_find(chars@, '.', 0);
    }
    string_of(&chars, 0, dot)
}

} // verus!
