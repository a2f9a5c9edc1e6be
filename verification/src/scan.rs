//! Line-oriented scanning of source text for `#include` directives.
//!
//! No preprocessor is run: every line that begins with the `#include` token
//! counts, whatever conditional it may stand in. A target between `<` and `>`
//! names a system header, which may ask for a library to link; a target
//! between double quotes names a local file.
use vstd::prelude::*;
use vstd::string::StringExecFns;
use crate::closure::Name;
use crate::text::{chars_of, contains_text, find, find_char, lemma_find, string_of, texts};

verus! {

struct Mapping {
    header: String,
    library: String,
}

/// The table from system headers to the libraries that satisfy them.
pub struct LibraryTable {
    entries: Vec<Mapping>,
}

impl View for LibraryTable {
    type V = Seq<(Name, Name)>;

    /// The pairs of header and library, in the order in which they were added.
    closed spec fn view(&self) -> Seq<(Name, Name)> {
        Seq::new(self.entries@.len(), |i: int| (self.entries@[i].header@, self.entries@[i].library@))
    }
}

/// The library of the first pair of `table` whose header is `header`.
pub open spec fn lookup(table: Seq<(Name, Name)>, header: Name) -> Option<Name>
    decreases table.len(),
{
    if table.len() == 0 {
        None
    } else if table[0].0 == header {
        Some(table[0].1)
    } else {
        lookup(table.drop_first(), header)
    }
}

/// The table of the well-known headers: the maths, threading and curses
/// libraries.
pub open spec fn standard_table() -> Seq<(Name, Name)> {
    seq![("math.h"@, "m"@), ("pthread.h"@, "pthread"@), ("ncurses.h"@, "ncurses"@)]
}

impl LibraryTable {
    /// A table without pairs: every system header is free.
    pub fn new() -> (out: Self)
        ensures
            out@ == Seq::<(Name, Name)>::empty(),
    {
        let out = LibraryTable { entries: Vec::new() };
        assert(out@ =~= Seq::<(Name, Name)>::empty());
        out
    }

    /// The table of the well-known headers.
    pub fn standard() -> (out: Self)
        ensures
            out@ == standard_table(),
    {
        let mut out = LibraryTable::new();
        out.add(String::from_str("math.h"), String::from_str("m"));
        out.add(String::from_str("pthread.h"), String::from_str("pthread"));
        out.add(String::from_str("ncurses.h"), String::from_str("ncurses"));
        assert(out@ =~= standard_table());
        out
    }

    /// Adds a pair behind those that the table holds.
    pub fn add(&mut self, header: String, library: String)
        ensures
            final(self)@ == old(self)@.push((header@, library@)),
    {
        self.entries.push(Mapping { header, library });
        assert(self@ =~= old(self)@.push((header@, library@)));
    }

    /// The library that satisfies `header`, if the table names one.
    pub fn library_for(&self, header: &String) -> (out: Option<&String>)
        ensures
            match out {
                Some(library) => lookup(self@, header@) == Some(library@),
                None => lookup(self@, header@).is_none(),
            },
    {
        let mut i: usize = 0;
        assert(self@.skip(0) =~= self@);
        while i < self.entries.len()
            invariant
                i <= self.entries.len(),
                lookup(self@, header@) == lookup(self@.skip(i as int), header@),
            decreases self.entries.len() - i,
        {
            let ghost rest = self@.skip(i as int);
            assert(rest[0] == self@[i as int]);
            assert(rest.drop_first() == self@.skip(i + 1));
            if self.entries[i].header == *header {
                return Some(&self.entries[i].library);
            }
            i = i + 1;
        }
        assert(self@.skip(i as int).len() == 0);
        None
    }
}

/// The text between the first `open` of `line` and the first `close` behind
/// it; none where either is missing.
pub open spec fn delimited(line: Seq<char>, open: char, close: char) -> Option<Seq<char>> {
    let start = find(line, open, 0);
    let end = find(line, close, start + 1);
    if end < line.len() {
        Some(line.subrange(start + 1, end))
    } else {
        None
    }
}

/// The system header that `line` names: the text of its `<...>` pair.
pub open spec fn system_target(line: Seq<char>) -> Option<Seq<char>> {
    delimited(line, '<', '>')
}

/// The local file that `line` names: the text of its `"..."` pair, unless
/// the line holds a `<...>` pair.
pub open spec fn local_target(line: Seq<char>) -> Option<Seq<char>> {
    if system_target(line).is_some() {
        None
    } else {
        delimited(line, '"', '"')
    }
}

/// `dlls` with the library that `table` gives for `header` behind it, unless
/// the table gives none or `dlls` holds it already.
pub open spec fn with_library(dlls: Seq<Name>, table: Seq<(Name, Name)>, header: Option<Name>) -> Seq<
    Name,
> {
    match header {
        Some(h) => match lookup(table, h) {
            Some(library) => if dlls.contains(library) {
                dlls
            } else {
                dlls.push(library)
            },
            None => dlls,
        },
        None => dlls,
    }
}

/// The position of the first character of `line` at or after `from` that is
/// no space.
pub open spec fn skip_spaces(line: Seq<char>, from: int) -> int
    decreases line.len() - from,
{
    if from < line.len() && line[from] == ' ' {
        skip_spaces(line, from + 1)
    } else {
        from
    }
}

/// The token that opens an include directive.
pub open spec fn include_token() -> Seq<char> {
    seq!['#', 'i', 'n', 'c', 'l', 'u', 'd', 'e']
}

/// Whether the first characters of `line` that are no spaces are the
/// `#include` token. A tab is no space.
pub open spec fn is_include_line(line: Seq<char>) -> bool {
    include_token().is_prefix_of(line.skip(skip_spaces(line, 0)))
}

/// The lines of `text`: the pieces between its newlines. A newline at the
/// very end opens no further line. A carriage return before a newline stays
/// on its line, where it changes no target.
pub open spec fn lines(text: Seq<char>) -> Seq<Seq<char>>
    decreases text.len(),
{
    if text.len() == 0 {
        Seq::empty()
    } else {
        let end = find(text, '\n', 0);
        if end >= text.len() {
            seq![text]
        } else {
            proof {
                lemma_find(text, '\n', 0);
            }
            seq![text.take(end)] + lines(text.skip(end + 1))
        }
    }
}

/// The local targets of the include lines among `ls`, in order, with
/// repetitions.
pub open spec fn local_targets(ls: Seq<Seq<char>>) -> Seq<Name>
    decreases ls.len(),
{
    if ls.len() == 0 {
        Seq::empty()
    } else {
        let before = local_targets(ls.drop_last());
        if is_include_line(ls.last()) && local_target(ls.last()).is_some() {
            before.push(local_target(ls.last()).unwrap())
        } else {
            before
        }
    }
}

/// `dlls` with the libraries behind it that the include lines among `ls`
/// ask for, in order, none twice.
pub open spec fn libraries(ls: Seq<Seq<char>>, table: Seq<(Name, Name)>, dlls: Seq<Name>) -> Seq<
    Name,
>
    decreases ls.len(),
{
    if ls.len() == 0 {
        dlls
    } else {
        let before = libraries(ls.drop_last(), table, dlls);
        if is_include_line(ls.last()) {
            with_library(before, table, system_target(ls.last()))
        } else {
            before
        }
    }
}

/// Searching from `from` is searching what is left of the text from there.
proof fn lemma_find_skip(s: Seq<char>, c: char, from: int, at: int)
    requires
        0 <= from <= at <= s.len(),
    ensures
        find(s, c, at) == from + find(s.skip(from), c, at - from),
    decreases s.len() - at,
{
    let t = s.skip(from);
    if at < s.len() {
        assert(t[at - from] == s[at]);
        if s[at] != c {
            lemma_find_skip(s, c, from, at + 1);
        }
    }
}

/// Adding a library keeps a list without repetitions so.
pub proof fn lemma_with_library_distinct(dlls: Seq<Name>, table: Seq<(Name, Name)>, header: Option<Name>)
    requires
        dlls.no_duplicates(),
    ensures
        with_library(dlls, table, header).no_duplicates(),
        dlls.is_prefix_of(with_library(dlls, table, header)),
{
    let out = with_library(dlls, table, header);
    assert(dlls =~= out.subrange(0, dlls.len() as int));
}

/// The libraries that a text asks for are added without repetition, behind
/// those that were there.
pub proof fn lemma_libraries_distinct(ls: Seq<Seq<char>>, table: Seq<(Name, Name)>, dlls: Seq<Name>)
    requires
        dlls.no_duplicates(),
    ensures
        libraries(ls, table, dlls).no_duplicates(),
        dlls.is_prefix_of(libraries(ls, table, dlls)),
    decreases ls.len(),
{
    if ls.len() > 0 {
        lemma_libraries_distinct(ls.drop_last(), table, dlls);
        let before = libraries(ls.drop_last(), table, dlls);
        lemma_with_library_distinct(before, table, system_target(ls.last()));
        let out = libraries(ls, table, dlls);
        assert(dlls =~= out.subrange(0, dlls.len() as int)) by {
            assert(dlls =~= before.subrange(0, dlls.len() as int));
            assert(before =~= out.subrange(0, before.len() as int));
        }
    } else {
        assert(dlls =~= dlls.subrange(0, dlls.len() as int));
    }
}

/// The text of `chars[..]` between the first `open` and the first `close`
/// behind it, as a pair of positions.
fn find_delimited(chars: &Vec<char>, open: char, close: char) -> (out: Option<(usize, usize)>)
    ensures
        match out {
            Some((from, to)) => from <= to <= chars.len() && delimited(chars@, open, close)
                == Some(chars@.subrange(from as int, to as int)),
            None => delimited(chars@, open, close).is_none(),
        },
{
    let start = find_char(chars, open, 0);
    if start >= chars.len() {
        return None;
    }
    let end = find_char(chars, close, start + 1);
    proof {
        lemma_find(chars@, close, start + 1);
    }
    if end < chars.len() {
        Some((start + 1, end))
    } else {
        None
    }
}

/// Appends to `dlls` the library that `table` gives for `header`, unless it
/// gives none or `dlls` holds it.
fn add_library(header: &String, table: &LibraryTable, dlls: &mut Vec<String>)
    ensures
        texts(final(dlls)@) == with_library(texts(old(dlls)@), table@, Some(header@)),
{
    match table.library_for(header) {
        Some(library) => {
            if !contains_text(dlls, library) {
                dlls.push(library.clone());
                assert(texts(dlls@) =~= texts(old(dlls)@).push(library@));
            }
        },
        None => {},
    }
}

/// Reads the include target of the characters of one line, as
/// `extract_included_filename_and_update_dlls` does.
fn extract_from_chars(chars: &Vec<char>, table: &LibraryTable, dlls: &mut Vec<String>) -> (out:
    Option<String>)
    ensures
        out.is_some() == local_target(chars@).is_some(),
        out matches Some(target) ==> Some(target@) == local_target(chars@),
        texts(final(dlls)@) == with_library(texts(old(dlls)@), table@, system_target(chars@)),
{
    match find_delimited(chars, '<', '>') {
        Some((from, to)) => {
            let header = string_of(chars, from, to);
            add_library(&header, table, dlls);
            None
        },
        None => match find_delimited(chars, '"', '"') {
            Some((from, to)) => Some(string_of(chars, from, to)),
            None => None,
        },
    }
}

/// Reads the include target of one line. A system header adds its library
/// from `table` to `dlls`, unless it is there already, and gives nothing
/// back; a local file is given back as written.
pub fn extract_included_filename_and_update_dlls(
    line: &str,
    table: &LibraryTable,
    dlls: &mut Vec<String>,
) -> (out: Option<String>)
    ensures
        out.is_some() == local_target(line@).is_some(),
        out matches Some(target) ==> Some(target@) == local_target(line@),
        texts(final(dlls)@) == with_library(texts(old(dlls)@), table@, system_target(line@)),
{
    let chars = chars_of(line);
    extract_from_chars(&chars, table, dlls)
}

/// Whether the characters of one line begin, behind any spaces, with the
/// `#include` token.
fn begins_include(chars: &Vec<char>) -> (yes: bool)
    ensures
        yes == is_include_line(chars@),
{
    let mut i: usize = 0;
    while i < chars.len() && chars[i] == ' '
        invariant
            i <= chars.len(),
            skip_spaces(chars@, 0) == skip_spaces(chars@, i as int),
        decreases chars.len() - i,
    {
        i = i + 1;
    }
    let ghost rest = chars@.skip(i as int);
    let ghost token = include_token();
    if chars.len() - i < 8 {
        return false;
    }
    let yes = chars[i] == '#' && chars[i + 1] == 'i' && chars[i + 2] == 'n' && chars[i + 3] == 'c'
        && chars[i + 4] == 'l' && chars[i + 5] == 'u' && chars[i + 6] == 'd' && chars[i + 7]
        == 'e';
    proof {
        let head = rest.subrange(0, 8);
        assert(head[0] == chars@[i + 0] && head[1] == chars@[i + 1] && head[2] == chars@[i + 2]
            && head[3] == chars@[i + 3] && head[4] == chars@[i + 4] && head[5] == chars@[i + 5]
            && head[6] == chars@[i + 6] && head[7] == chars@[i + 7]);
        if yes {
            assert(token =~= head);
        } else {
            assert(token[0] == '#' && token[1] == 'i' && token[2] == 'n' && token[3] == 'c'
                && token[4] == 'l' && token[5] == 'u' && token[6] == 'd' && token[7] == 'e');
        }
    }
    yes
}

/// The lines of a text, each as its characters.
fn split_lines(chars: &Vec<char>) -> (out: Vec<Vec<char>>)
    ensures
        out.len() == lines(chars@).len(),
        forall|i: int| 0 <= i < out.len() ==> (#[trigger] out[i])@ == lines(chars@)[i],
{
    let mut out: Vec<Vec<char>> = Vec::new();
    let mut pos: usize = 0;
    let ghost mut done: Seq<Seq<char>> = Seq::empty();
    assert(chars@.skip(0) == chars@);
    while pos < chars.len()
        invariant
            pos <= chars.len(),
            out.len() == done.len(),
            forall|i: int| 0 <= i < out.len() ==> (#[trigger] out[i])@ == done[i],
            lines(chars@) == done + lines(chars@.skip(pos as int)),
        decreases chars.len() - pos,
    {
        let end = find_char(chars, '\n', pos);
        let ghost rest = chars@.skip(pos as int);
        proof {
            lemma_find(chars@, '\n', pos as int);
            lemma_find_skip(chars@, '\n', pos as int, pos as int);
        }
        let mut line: Vec<char> = Vec::new();
        let mut i: usize = pos;
        while i < end
            invariant
                pos <= i <= end <= chars.len(),
                line@ == chars@.subrange(pos as int, i as int),
            decreases end - i,
        {
            line.push(chars[i]);
            i = i + 1;
        }
        proof {
            assert(line@ =~= rest.take(end - pos));
            if end >= chars.len() {
                assert(rest.take(end - pos) =~= rest);
                assert(lines(rest) =~= seq![rest]);
                assert(lines(chars@.skip(chars@.len() as int)) =~= Seq::<Seq<char>>::empty());
                assert(done + lines(rest) =~= done.push(line@) + Seq::<Seq<char>>::empty());
            } else {
                assert(rest.skip(end - pos + 1) =~= chars@.skip(end + 1));
                assert(done + lines(rest) =~= done.push(line@) + lines(chars@.skip(end + 1)));
            }
            done = done.push(line@);
        }
        out.push(line);
        if end >= chars.len() {
            pos = chars.len();
        } else {
            pos = end + 1;
        }
    }
    assert(lines(chars@.skip(pos as int)) =~= Seq::<Seq<char>>::empty());
    assert(done + Seq::<Seq<char>>::empty() =~= done);
    out
}

/// Scans a source text line by line. Gives back the local include targets
/// as written, in order; adds to `dlls` the libraries that `table` gives for
/// the system headers included, none twice.
pub fn get_include_files_and_update_dlls(source: String, table: &LibraryTable, dlls: &mut Vec<String>) -> (out:
    Vec<String>)
    ensures
        texts(out@) == local_targets(lines(source@)),
        texts(final(dlls)@) == libraries(lines(source@), table@, texts(old(dlls)@)),
{
    let chars = chars_of(source.as_str());
    let all = split_lines(&chars);
    let ghost ls = lines(source@);
    assert(ls.len() == all.len());
    let mut include_files: Vec<String> = Vec::new();
    let mut i: usize = 0;
    assert(ls.take(0) =~= Seq::<Seq<char>>::empty());
    assert(texts(include_files@) =~= Seq::<Name>::empty());
    while i < all.len()
        invariant
            i <= all.len(),
            ls.len() == all.len(),
            forall|k: int| 0 <= k < all.len() ==> (#[trigger] all[k])@ == ls[k],
            texts(include_files@) == local_targets(ls.take(i as int)),
            texts(dlls@) == libraries(ls.take(i as int), table@, texts(old(dlls)@)),
        decreases all.len() - i,
    {
        let ghost upto = ls.take(i + 1);
        assert(upto.drop_last() =~= ls.take(i as int));
        assert(upto.last() == ls[i as int]);
        let line = &all[i];
        if begins_include(line) {
            let ghost found = texts(include_files@);
            if let Some(include_file) = extract_from_chars(line, table, dlls) {
                include_files.push(include_file);
                assert(texts(include_files@) =~= found.push(local_target(line@).unwrap()));
            }
        }
        i = i + 1;
    }
    assert(ls.take(all.len() as int) =~= ls);
    include_files
}

} // verus!
