//! The include resolver.
//!
//! Resolution alternates between decisions and work on the file system. The
//! decisions are made here: `Parser` holds the state of one run, `parse`
//! takes the answer to the last request and says what to do next. Whoever
//! drives the run reads the files and locates the include targets on disk.
use vstd::prelude::*;
use crate::closure::{Includes, Name};
use crate::config::Config;
use crate::graph::DependencyMap;
use crate::path::{candidate, candidate_path, extension, has_extension, relative_to, strip_root};
use crate::scan::{
    get_include_files_and_update_dlls, libraries, lines, local_targets, LibraryTable,
};
use crate::text::{contains_text, texts};

verus! {

/// What a run of the resolver found.
pub struct ParseResult {
    /// The direct includes of every file that was read.
    pub dependency_map: DependencyMap,
    /// The libraries that the system headers ask for.
    pub dlls: Vec<String>,
}

impl ParseResult {
    /// A result made of a graph and a list of libraries.
    pub fn new(dependency_map: DependencyMap, dlls: Vec<String>) -> (out: Self)
        ensures
            out.dependency_map == dependency_map,
            out.dlls == dlls,
    {
        Self { dependency_map, dlls }
    }
}

/// What the driver of a run tells the resolver.
#[derive(Debug, PartialEq, Eq)]
pub enum Answer {
    /// A file found in the tree, by its path relative to the project root.
    Root(String),
    /// The text of the file that was to be read.
    Text(String),
    /// The absolute path, free of links, `.` and `..`, of the file that the
    /// path to be located names.
    Location(String),
}

/// What the resolver asks of the driver of a run.
#[derive(Debug, PartialEq, Eq)]
pub enum Request {
    /// Read this file and answer with its text.
    Read(String),
    /// Locate the file that this path names: follow its links, take out
    /// `.` and `..`, and answer with the absolute path.
    Locate(String),
    /// Nothing is pending: offer the next file of the tree, or take the
    /// result.
    Done,
}

/// An `Answer` by the texts it holds.
pub enum AnswerView {
    Root(Name),
    Text(Seq<char>),
    Location(Name),
}

/// A `Request` by the texts it holds.
pub enum RequestView {
    Read(Name),
    Locate(Seq<char>),
    Done,
}

/// Why an answer stops a run.
#[derive(Clone, Copy, Debug, PartialEq, Eq)]
pub enum ParseError {
    /// The file that an include names lies outside the project root.
    OutsideRoot,
}

impl View for Answer {
    type V = AnswerView;

    open spec fn view(&self) -> AnswerView {
        match *self {
            Answer::Root(file) => AnswerView::Root(file@),
            Answer::Text(text) => AnswerView::Text(text@),
            Answer::Location(path) => AnswerView::Location(path@),
        }
    }
}

impl View for Request {
    type V = RequestView;

    open spec fn view(&self) -> RequestView {
        match *self {
            Request::Read(file) => RequestView::Read(file@),
            Request::Locate(path) => RequestView::Locate(path@),
            Request::Done => RequestView::Done,
        }
    }
}

/// A file whose includes are being located.
pub struct Visit {
    /// The file.
    pub file: Name,
    /// Its local include targets, as written.
    pub targets: Seq<Name>,
    /// The paths of the targets located so far, none twice.
    pub includes: Seq<Name>,
    /// How many targets were located.
    pub located: nat,
}

/// The state of a run.
pub struct State {
    /// The project root, as an absolute path.
    pub root: Seq<char>,
    /// The extension that a file of the tree must have to be read.
    pub extension: Seq<char>,
    /// The table from system headers to libraries.
    pub table: Seq<(Name, Name)>,
    /// The files of the graph, in the order of their entries.
    pub files: Seq<Name>,
    /// The direct includes of each file of the graph.
    pub includes: Includes,
    /// The libraries found.
    pub dlls: Seq<Name>,
    /// The files that were reached through an include.
    pub seen: Set<Name>,
    /// The files whose includes are being located, the innermost last.
    pub stack: Seq<Visit>,
    /// The file whose text is awaited.
    pub reading: Option<Name>,
}

impl State {
    /// Whether nothing is pending.
    pub open spec fn idle(self) -> bool {
        self.reading.is_none() && self.stack.len() == 0
    }

    /// The state with an entry for `file`, unless it has one: the first
    /// entry written for a file stays.
    pub open spec fn record(self, file: Name, list: Seq<Name>) -> State {
        if self.includes.dom().contains(file) {
            self
        } else {
            State { files: self.files.push(file), includes: self.includes.insert(file, list), ..self }
        }
    }

    /// The state once every visit whose targets are all located has been
    /// closed, the innermost first, each with its entry recorded.
    pub open spec fn settle(self) -> State
        decreases self.stack.len(),
    {
        if self.stack.len() > 0 && self.stack.last().located >= self.stack.last().targets.len() {
            let top = self.stack.last();
            State { stack: self.stack.drop_last(), ..self }.record(top.file, top.includes).settle()
        } else {
            self
        }
    }

    /// What the driver is asked to do in this state.
    pub open spec fn pending(self) -> RequestView {
        match self.reading {
            Some(file) => RequestView::Read(file),
            None => if self.stack.len() > 0 && self.stack.last().located
                < self.stack.last().targets.len() {
                let top = self.stack.last();
                RequestView::Locate(candidate(self.root, top.file, top.targets[top.located as int]))
            } else {
                RequestView::Done
            },
        }
    }

    /// The state after a file of the tree was offered. It is read if the run
    /// is idle, the file has the extension and the graph has no entry for
    /// it.
    pub open spec fn after_root(self, file: Name) -> State {
        if self.idle() && extension(file) == Some(self.extension) && !self.includes.dom().contains(
            file,
        ) {
            State { reading: Some(file), ..self }
        } else {
            self
        }
    }

    /// The state after the text of the awaited file came in: the text is
    /// scanned, its libraries are added, and a visit of the file begins.
    pub open spec fn after_text(self, text: Seq<char>) -> State {
        match self.reading {
            Some(file) => State {
                dlls: libraries(lines(text), self.table, self.dlls),
                stack: self.stack.push(
                    Visit {
                        file,
                        targets: local_targets(lines(text)),
                        includes: Seq::empty(),
                        located: 0,
                    },
                ),
                reading: None,
                ..self
            }.settle(),
            None => self,
        }
    }

    /// The state after the awaited include target was located at `path`,
    /// as seen from the project root. The path joins the includes of the innermost visit, unless it is among
    /// them. A path that has no entry and was not seen is marked seen and
    /// read next.
    pub open spec fn after_location(self, path: Name) -> State {
        if self.reading.is_none() && self.stack.len() > 0 && self.stack.last().located
            < self.stack.last().targets.len() {
            let top = self.stack.last();
            let moved = Visit {
                includes: if top.includes.contains(path) {
                    top.includes
                } else {
                    top.includes.push(path)
                },
                located: top.located + 1,
                ..top
            };
            let on = State { stack: self.stack.drop_last().push(moved), ..self };
            if !self.includes.dom().contains(path) && !self.seen.contains(path) {
                State { seen: self.seen.insert(path), reading: Some(path), ..on }
            } else {
                on.settle()
            }
        } else {
            self
        }
    }

    /// Whether `answer` stops the run: it locates the awaited include
    /// outside the project root.
    pub open spec fn refuses(self, answer: AnswerView) -> bool {
        answer matches AnswerView::Location(path) && self.pending() is Locate && relative_to(
            self.root,
            path,
        ).is_none()
    }

    /// The state after an answer. An answer that was not asked for, or that
    /// stops the run, changes nothing.
    pub open spec fn next(self, answer: AnswerView) -> State {
        match answer {
            AnswerView::Root(file) => self.after_root(file),
            AnswerView::Text(text) => self.after_text(text),
            AnswerView::Location(path) => match relative_to(self.root, path) {
                Some(inside) => self.after_location(inside),
                None => self,
            },
        }
    }
}

struct Frame {
    file: String,
    targets: Vec<String>,
    includes: Vec<String>,
    located: usize,
}

impl View for Frame {
    type V = Visit;

    closed spec fn view(&self) -> Visit {
        Visit {
            file: self.file@,
            targets: texts(self.targets@),
            includes: texts(self.includes@),
            located: self.located as nat,
        }
    }
}

/// One run of the include resolver.
pub struct Parser {
    root_dir: String,
    extension: String,
    table: LibraryTable,
    map: DependencyMap,
    dlls: Vec<String>,
    seen: Vec<String>,
    stack: Vec<Frame>,
    reading: Option<String>,
}

impl View for Parser {
    type V = State;

    closed spec fn view(&self) -> State {
        State {
            root: self.root_dir@,
            extension: self.extension@,
            table: self.table@,
            files: self.map.keys(),
            includes: self.map@,
            dlls: texts(self.dlls@),
            seen: Set::new(|x: Name| texts(self.seen@).contains(x)),
            stack: Seq::new(self.stack@.len(), |i: int| self.stack@[i]@),
            reading: match self.reading {
                Some(file) => Some(file@),
                None => None,
            },
        }
    }
}

/// The state in which a run under `root` for files of the extension `ext`
/// begins.
pub open spec fn initial(root: Seq<char>, ext: Seq<char>, table: Seq<(Name, Name)>) -> State {
    State {
        root,
        extension: ext,
        table,
        files: Seq::empty(),
        includes: Map::empty(),
        dlls: Seq::empty(),
        seen: Set::empty(),
        stack: Seq::empty(),
        reading: None,
    }
}

impl Parser {
    /// Begins a run for the tree under `root_dir`, for the sources that
    /// `config` names, with the table of the well-known headers.
    pub fn new(root_dir: String, config: &Config) -> (out: Self)
        ensures
            out@ == initial(root_dir@, config.extension@, crate::scan::standard_table()),
    {
        Self::with_table(root_dir, config, LibraryTable::standard())
    }

    /// Begins a run with a table of one's own.
    pub fn with_table(root_dir: String, config: &Config, table: LibraryTable) -> (out: Self)
        ensures
            out@ == initial(root_dir@, config.extension@, table@),
    {
        let out = Parser {
            root_dir,
            extension: config.extension.clone(),
            table,
            map: DependencyMap::new(),
            dlls: Vec::new(),
            seen: Vec::new(),
            stack: Vec::new(),
            reading: None,
        };
        proof {
            let s = out@;
            let i = initial(root_dir@, config.extension@, table@);
            assert(s.files =~= i.files);
            assert(s.includes =~= i.includes);
            assert(s.dlls =~= i.dlls);
            assert(s.seen =~= i.seen);
            assert(s.stack =~= i.stack);
        }
        out
    }

    /// The project root that the run was begun for.
    pub fn root_dir(&self) -> (out: &String)
        ensures
            out@ == self@.root,
    {
        &self.root_dir
    }

    /// What the driver is asked to do now.
    pub fn request(&self) -> (out: Request)
        ensures
            out@ == self@.pending(),
    {
        match &self.reading {
            Some(file) => Request::Read(file.clone()),
            None => {
                if self.stack.len() > 0 {
                    let top = &self.stack[self.stack.len() - 1];
                    assert(self@.stack.last() == top@);
                    if top.located < top.targets.len() {
                        return Request::Locate(
                            candidate_path(
                                self.root_dir.as_str(),
                                top.file.as_str(),
                                top.targets[top.located].as_str(),
                            ),
                        );
                    }
                }
                Request::Done
            },
        }
    }

    /// Closes every visit whose targets are all located.
    fn settle(&mut self)
        ensures
            final(self)@ == old(self)@.settle(),
    {
        while self.stack.len() > 0
            invariant
                self@.settle() == old(self)@.settle(),
            decreases self.stack.len(),
        {
            let ghost before = self@;
            let last = self.stack.len() - 1;
            assert(before.stack.last() == self.stack@[last as int]@);
            if self.stack[last].located < self.stack[last].targets.len() {
                return ;
            }
            let top = self.stack.pop().unwrap();
            let ghost popped = self@;
            assert(popped.stack =~= before.stack.drop_last());
            assert(popped == State { stack: before.stack.drop_last(), ..before });
            let ghost visit = top@;
            self.map.insert(top.file, top.includes);
            assert(self@.stack =~= popped.stack);
            assert(self@ == popped.record(visit.file, visit.includes));
        }
    }

    /// Takes the answer to the last request and says what to do next. An
    /// answer that was not asked for changes nothing. The run is stopped by
    /// an include that is located outside the project root, and by nothing
    /// else.
    pub fn parse(&mut self, answer: Answer) -> (out: Result<Request, ParseError>)
        ensures
            final(self)@ == old(self)@.next(answer@),
            out.is_err() == old(self)@.refuses(answer@),
            out matches Ok(request) ==> request@ == final(self)@.pending(),
    {
        match answer {
            Answer::Root(file) => {
                if self.reading.is_none() && self.stack.len() == 0 && has_extension(
                    file.as_str(),
                    self.extension.as_str(),
                ) && !self.map.contains_key(&file) {
                    self.reading = Some(file);
                }
            },
            Answer::Text(text) => {
                let ghost before = self@;
                match self.reading.take() {
                    Some(file) => {
                        let targets = get_include_files_and_update_dlls(
                            text,
                            &self.table,
                            &mut self.dlls,
                        );
                        let frame = Frame { file, targets, includes: Vec::new(), located: 0 };
                        proof {
                            assert(frame@.includes =~= Seq::<Name>::empty());
                        }
                        let ghost visit = frame@;
                        self.stack.push(frame);
                        assert(self@.stack =~= before.stack.push(visit));
                        self.settle();
                    },
                    None => {
                        assert(self@.stack =~= before.stack);
                    },
                }
            },
            Answer::Location(located) => {
                let ghost before = self@;
                if self.reading.is_none() && self.stack.len() > 0 {
                    let last = self.stack.len() - 1;
                    assert(before.stack.last() == self.stack@[last as int]@);
                    if self.stack[last].located < self.stack[last].targets.len() {
                        let path = match strip_root(self.root_dir.as_str(), located.as_str()) {
                            Some(inside) => inside,
                            None => {
                                return Err(ParseError::OutsideRoot);
                            },
                        };
                        let mut top = self.stack.pop().unwrap();
                        let ghost visit = top@;
                        if !contains_text(&top.includes, &path) {
                            top.includes.push(path.clone());
                            assert(texts(top.includes@) =~= visit.includes.push(path@));
                        }
                        top.located = top.located + 1;
                        let ghost moved = top@;
                        self.stack.push(top);
                        assert(self@.stack =~= before.stack.drop_last().push(moved));
                        let ghost on = self@;
                        if !self.map.contains_key(&path) && !contains_text(&self.seen, &path) {
                            let ghost seen_before = texts(self.seen@);
                            self.seen.push(path.clone());
                            self.reading = Some(path);
                            proof {
                                assert(texts(self.seen@) =~= seen_before.push(path@));
                                assert(self@.stack =~= on.stack);
                                assert(self@.seen =~= on.seen.insert(path@)) by {
                                    assert forall|x: Name|
                                        self@.seen.contains(x) <==> on.seen.insert(
                                            path@,
                                        ).contains(x) by {
                                        if seen_before.contains(x) {
                                            let k = choose|k: int|
                                                0 <= k < seen_before.len() && seen_before[k] == x;
                                            assert(texts(self.seen@)[k] == x);
                                        }
                                        if x == path@ {
                                            assert(texts(self.seen@)[seen_before.len() as int]
                                                == x);
                                        }
                                        if texts(self.seen@).contains(x) {
                                            let k = choose|k: int|
                                                0 <= k < texts(self.seen@).len() && texts(
                                                    self.seen@,
                                                )[k] == x;
                                            if k < seen_before.len() {
                                                assert(seen_before[k] == x);
                                            }
                                        }
                                    }
                                }
                            }
                        } else {
                            self.settle();
                        }
                    }
                }
            },
        }
        Ok(self.request())
    }

    /// Ends the run and hands out what it found.
    pub fn finish(self) -> (out: ParseResult)
        ensures
            out.dependency_map.keys() == self@.files,
            out.dependency_map@ == self@.includes,
            texts(out.dlls@) == self@.dlls,
    {
        ParseResult::new(self.map, self.dlls)
    }
}


/// Whether the graph and the libraries of a state repeat nothing, and the
/// visits of its stack are in step with the request that is pending.
pub open spec fn well_formed(s: State) -> bool {
    &&& distinct_entries(s)
    &&& s.dlls.no_duplicates()
    &&& s.reading.is_none() && s.stack.len() > 0 ==> s.stack.last().located
        < s.stack.last().targets.len()
}

/// Whether the graph of a state has one entry for each of its files.
pub open spec fn distinct_entries(s: State) -> bool {
    &&& s.files.no_duplicates()
    &&& forall|f: Name| s.includes.dom().contains(f) <==> s.files.contains(f)
}

/// The include targets of the stack that are still to be located.
pub open spec fn unlocated(stack: Seq<Visit>) -> nat
    decreases stack.len(),
{
    if stack.len() == 0 {
        0
    } else {
        let top = stack.last();
        let open = if top.located < top.targets.len() {
            (top.targets.len() - top.located) as nat
        } else {
            0
        };
        unlocated(stack.drop_last()) + open
    }
}

/// The texts still to be read, counted twice, and one more while a text is
/// awaited: a bound on the files of `universe` that a run can still open.
pub open spec fn unread(s: State, universe: Set<Name>) -> nat {
    2 * universe.difference(s.seen).len() + if s.reading.is_some() {
        1nat
    } else {
        0nat
    }
}

/// The states that `answers` lead through, one after the other.
pub open spec fn run(s: State, answers: Seq<AnswerView>) -> State
    decreases answers.len(),
{
    if answers.len() == 0 {
        s
    } else {
        run(s, answers.drop_last()).next(answers.last())
    }
}

/// What recording an entry keeps: everything but the graph, and in the graph
/// every entry that was there.
pub proof fn lemma_record(s: State, file: Name, list: Seq<Name>)
    requires
        distinct_entries(s),
    ensures
        distinct_entries(s.record(file, list)),
        s.record(file, list).dlls == s.dlls,
        s.record(file, list).seen == s.seen,
        s.record(file, list).stack == s.stack,
        s.record(file, list).reading == s.reading,
        s.files.is_prefix_of(s.record(file, list).files),
        s.record(file, list).includes.dom().contains(file),
        forall|f: Name| #[trigger]
            s.includes.dom().contains(f) ==> s.record(file, list).includes.dom().contains(f)
                && s.record(file, list).includes[f] == s.includes[f],
{
    let t = s.record(file, list);
    assert(s.files =~= t.files.subrange(0, s.files.len() as int));
    if !s.includes.dom().contains(file) {
        assert(!s.files.contains(file));
        assert forall|i: int, j: int| 0 <= i < t.files.len() && 0 <= j < t.files.len() && i
            != j implies t.files[i] != t.files[j] by {
            if i < s.files.len() {
                assert(s.files[i] == t.files[i]);
                assert(s.files.contains(t.files[i]));
            }
            if j < s.files.len() {
                assert(s.files[j] == t.files[j]);
                assert(s.files.contains(t.files[j]));
            }
        }
        assert forall|f: Name| t.includes.dom().contains(f) <==> t.files.contains(f) by {
            if s.files.contains(f) {
                let i = choose|i: int| 0 <= i < s.files.len() && s.files[i] == f;
                assert(t.files[i] == f);
            }
            if f == file {
                assert(t.files[s.files.len() as int] == f);
            }
            if t.files.contains(f) {
                let i = choose|i: int| 0 <= i < t.files.len() && t.files[i] == f;
                if i < s.files.len() {
                    assert(s.files[i] == f);
                }
            }
        }
    }
}

/// What closing the finished visits keeps: the libraries, the files seen,
/// the awaited text, every entry of the graph and the targets still to be
/// located. The innermost visit that is left has a target to locate.
pub proof fn lemma_settle(s: State)
    requires
        distinct_entries(s),
    ensures
        distinct_entries(s.settle()),
        s.settle().stack.len() > 0 ==> s.settle().stack.last().located
            < s.settle().stack.last().targets.len(),
        s.settle().root == s.root,
        s.settle().extension == s.extension,
        s.settle().table == s.table,
        s.settle().dlls == s.dlls,
        s.settle().seen == s.seen,
        s.settle().reading == s.reading,
        s.files.is_prefix_of(s.settle().files),
        forall|f: Name| #[trigger]
            s.includes.dom().contains(f) ==> s.settle().includes.dom().contains(f)
                && s.settle().includes[f] == s.includes[f],
        unlocated(s.settle().stack) == unlocated(s.stack),
    decreases s.stack.len(),
{
    if s.stack.len() > 0 && s.stack.last().located >= s.stack.last().targets.len() {
        let top = s.stack.last();
        let popped = State { stack: s.stack.drop_last(), ..s };
        lemma_record(popped, top.file, top.includes);
        let recorded = popped.record(top.file, top.includes);
        lemma_settle(recorded);
        let out = s.settle();
        assert(out == recorded.settle());
        assert(s.files =~= out.files.subrange(0, s.files.len() as int)) by {
            assert(s.files =~= recorded.files.subrange(0, s.files.len() as int));
            assert(recorded.files =~= out.files.subrange(0, recorded.files.len() as int));
        }
    } else {
        assert(s.files =~= s.files.subrange(0, s.files.len() as int));
    }
}

/// Every answer leaves a well-formed state well formed, keeps every entry
/// that the graph holds, and adds libraries only behind those found before,
/// none twice.
pub proof fn lemma_next_keeps_well_formed(s: State, answer: AnswerView)
    requires
        well_formed(s),
    ensures
        well_formed(s.next(answer)),
        s.next(answer).root == s.root,
        s.next(answer).extension == s.extension,
        s.next(answer).table == s.table,
        s.files.is_prefix_of(s.next(answer).files),
        forall|f: Name| #[trigger]
            s.includes.dom().contains(f) ==> s.next(answer).includes.dom().contains(f)
                && s.next(answer).includes[f] == s.includes[f],
        s.dlls.is_prefix_of(s.next(answer).dlls),
        s.next(answer).dlls.no_duplicates(),
{
    let t = s.next(answer);
    assert(s.files =~= s.files.subrange(0, s.files.len() as int));
    assert(s.dlls =~= s.dlls.subrange(0, s.dlls.len() as int));
    match answer {
        AnswerView::Root(file) => {},
        AnswerView::Text(text) => {
            if let Some(file) = s.reading {
                crate::scan::lemma_libraries_distinct(lines(text), s.table, s.dlls);
                let begun = State {
                    dlls: libraries(lines(text), s.table, s.dlls),
                    stack: s.stack.push(
                        Visit {
                            file,
                            targets: local_targets(lines(text)),
                            includes: Seq::empty(),
                            located: 0,
                        },
                    ),
                    reading: None,
                    ..s
                };
                lemma_settle(begun);
            }
        },
        AnswerView::Location(located) => if let Some(path) = relative_to(s.root, located) {
            if s.reading.is_none() && s.stack.len() > 0 && s.stack.last().located
                < s.stack.last().targets.len() {
                let top = s.stack.last();
                let moved = Visit {
                    includes: if top.includes.contains(path) {
                        top.includes
                    } else {
                        top.includes.push(path)
                    },
                    located: top.located + 1,
                    ..top
                };
                let on = State { stack: s.stack.drop_last().push(moved), ..s };
                if !s.includes.dom().contains(path) && !s.seen.contains(path) {
                } else {
                    lemma_settle(on);
                }
            }
        },
    }
}

/// The libraries of a run never repeat: whatever answers come in, and
/// however many files include the same system header, each library is found
/// once.
pub proof fn lemma_run_keeps_well_formed(s: State, answers: Seq<AnswerView>)
    requires
        well_formed(s),
    ensures
        well_formed(run(s, answers)),
        run(s, answers).dlls.no_duplicates(),
        run(s, answers).files.no_duplicates(),
        s.files.is_prefix_of(run(s, answers).files),
        forall|f: Name| #[trigger]
            s.includes.dom().contains(f) ==> run(s, answers).includes.dom().contains(f) && run(
                s,
                answers,
            ).includes[f] == s.includes[f],
    decreases answers.len(),
{
    if answers.len() > 0 {
        let before = run(s, answers.drop_last());
        lemma_run_keeps_well_formed(s, answers.drop_last());
        lemma_next_keeps_well_formed(before, answers.last());
        let out = run(s, answers);
        assert(s.files =~= out.files.subrange(0, s.files.len() as int)) by {
            assert(s.files =~= before.files.subrange(0, s.files.len() as int));
            assert(before.files =~= out.files.subrange(0, before.files.len() as int));
        }
    } else {
        assert(s.files =~= s.files.subrange(0, s.files.len() as int));
    }
}

/// The state in which a run begins is well formed.
pub proof fn lemma_initial_well_formed(root: Seq<char>, ext: Seq<char>, table: Seq<(Name, Name)>)
    ensures
        well_formed(initial(root, ext, table)),
        initial(root, ext, table).idle(),
{
}

/// Resolution is a function of what the tree answers: two runs that begin
/// in the same state and get the same answers end in the same state, with the
/// same graph and the same libraries, and ask the same of their drivers.
pub proof fn lemma_same_answers_same_result(a: State, b: State, xs: Seq<AnswerView>, ys: Seq<AnswerView>)
    requires
        a == b,
        xs == ys,
    ensures
        run(a, xs) == run(b, ys),
        run(a, xs).pending() == run(b, ys).pending(),
{
}

/// Offering again files that the graph holds changes nothing: a second pass
/// over an unchanged tree leaves the graph, entry by entry, and the libraries
/// as the first left them.
pub proof fn lemma_second_pass_changes_nothing(s: State, roots: Seq<Name>)
    requires
        forall|i: int| 0 <= i < roots.len() ==> s.includes.dom().contains(#[trigger] roots[i]),
    ensures
        run(s, Seq::new(roots.len(), |i: int| AnswerView::Root(roots[i]))) == s,
    decreases roots.len(),
{
    let answers = Seq::new(roots.len(), |i: int| AnswerView::Root(roots[i]));
    if roots.len() > 0 {
        let init = roots.drop_last();
        assert forall|i: int| 0 <= i < init.len() implies s.includes.dom().contains(
            #[trigger] init[i],
        ) by {
            assert(init[i] == roots[i]);
        }
        lemma_second_pass_changes_nothing(s, init);
        assert(answers.drop_last() =~= Seq::new(init.len(), |i: int| AnswerView::Root(init[i])));
        assert(answers.last() == AnswerView::Root(roots[roots.len() - 1]));
    }
}

/// Every text and every location that was asked for brings a run nearer to
/// its end, whatever cycles the includes form: either fewer files of the tree
/// are left to read, or as many and fewer targets are left to locate. As
/// the tree has finitely many files, a run ends.
pub proof fn lemma_answer_makes_progress(s: State, answer: AnswerView, universe: Set<Name>)
    requires
        well_formed(s),
        universe.finite(),
        answer is Text ==> s.reading.is_some(),
        answer matches AnswerView::Location(path) ==> s.pending() is Locate && relative_to(
            s.root,
            path,
        ).is_some() && universe.contains(relative_to(s.root, path).unwrap()),
        !(answer is Root),
    ensures
        unread(s.next(answer), universe) < unread(s, universe) || (unread(
            s.next(answer),
            universe,
        ) == unread(s, universe) && unlocated(s.next(answer).stack) < unlocated(s.stack)),
{
    match answer {
        AnswerView::Root(file) => {},
        AnswerView::Text(text) => {
            let file = s.reading.unwrap();
            let begun = State {
                dlls: libraries(lines(text), s.table, s.dlls),
                stack: s.stack.push(
                    Visit {
                        file,
                        targets: local_targets(lines(text)),
                        includes: Seq::empty(),
                        located: 0,
                    },
                ),
                reading: None,
                ..s
            };
            crate::scan::lemma_libraries_distinct(lines(text), s.table, s.dlls);
            lemma_settle(begun);
        },
        AnswerView::Location(located) => if let Some(path) = relative_to(s.root, located) {
            let top = s.stack.last();
            let moved = Visit {
                includes: if top.includes.contains(path) {
                    top.includes
                } else {
                    top.includes.push(path)
                },
                located: top.located + 1,
                ..top
            };
            let on = State { stack: s.stack.drop_last().push(moved), ..s };
            assert(on.stack.drop_last() =~= s.stack.drop_last());
            assert(on.stack.last() == moved);
            assert(unlocated(on.stack) + 1 == unlocated(s.stack));
            if !s.includes.dom().contains(path) && !s.seen.contains(path) {
                let left = universe.difference(s.seen);
                assert(universe.difference(s.seen.insert(path)) =~= left.remove(path));
                assert(left.contains(path));
            } else {
                lemma_settle(on);
            }
        },
    }
}


/// Whether `file` is being visited.
pub open spec fn on_stack(s: State, file: Name) -> bool {
    exists|i: int| 0 <= i < s.stack.len() && (#[trigger] s.stack[i]).file == file
}

/// Whether the run has `file` in hand: it has an entry, is being visited, or
/// its text is awaited.
pub open spec fn known(s: State, file: Name) -> bool {
    s.includes.dom().contains(file) || on_stack(s, file) || s.reading == Some(file)
}

/// Whether every file that the run has met is in hand: the files seen, the
/// includes of every entry, and the includes located for every visit.
pub open spec fn linked(s: State) -> bool {
    &&& forall|f: Name| s.seen.contains(f) ==> known(s, f)
    &&& forall|k: Name, i: int|
        s.includes.dom().contains(k) && 0 <= i < s.includes[k].len() ==> known(
            s,
            #[trigger] s.includes[k][i],
        )
    &&& forall|j: int, i: int|
        0 <= j < s.stack.len() && 0 <= i < s.stack[j].includes.len() ==> known(
            s,
            #[trigger] s.stack[j].includes[i],
        )
}

/// Closing the finished visits keeps every file in hand, and keeps a linked
/// state linked.
proof fn lemma_settle_linked(s: State)
    requires
        linked(s),
    ensures
        linked(s.settle()),
        forall|f: Name| known(s, f) ==> known(s.settle(), f),
    decreases s.stack.len(),
{
    if s.stack.len() > 0 && s.stack.last().located >= s.stack.last().targets.len() {
        let top = s.stack.last();
        let popped = State { stack: s.stack.drop_last(), ..s };
        let t = popped.record(top.file, top.includes);
        assert forall|f: Name| known(s, f) implies known(t, f) by {
            if on_stack(s, f) {
                let i = choose|i: int| 0 <= i < s.stack.len() && (#[trigger] s.stack[i]).file == f;
                if i < s.stack.len() - 1 {
                    assert(t.stack[i].file == f);
                }
            }
        }
        assert forall|k: Name, i: int|
            t.includes.dom().contains(k) && 0 <= i < t.includes[k].len() implies known(
            t,
            #[trigger] t.includes[k][i],
        ) by {
            if s.includes.dom().contains(k) {
                assert(t.includes[k] == s.includes[k]);
                assert(known(s, s.includes[k][i]));
            } else {
                assert(k == top.file);
                assert(t.includes[k] == top.includes);
                assert(known(s, s.stack[s.stack.len() - 1].includes[i]));
            }
        }
        assert forall|j: int, i: int|
            0 <= j < t.stack.len() && 0 <= i < t.stack[j].includes.len() implies known(
            t,
            #[trigger] t.stack[j].includes[i],
        ) by {
            assert(t.stack[j] == s.stack[j]);
            assert(known(s, s.stack[j].includes[i]));
        }
        assert(linked(t));
        lemma_settle_linked(t);
        assert(s.settle() == t.settle());
    }
}

/// Every answer keeps a linked state linked.
pub proof fn lemma_next_keeps_linked(s: State, answer: AnswerView)
    requires
        linked(s),
    ensures
        linked(s.next(answer)),
{
    match answer {
        AnswerView::Root(file) => {
            let t = s.after_root(file);
            assert forall|f: Name| known(s, f) implies known(t, f) by {
                if on_stack(s, f) {
                    let i = choose|i: int|
                        0 <= i < s.stack.len() && (#[trigger] s.stack[i]).file == f;
                    assert(t.stack[i].file == f);
                }
            }
            assert(linked(t));
        },
        AnswerView::Text(text) => {
            if let Some(file) = s.reading {
                let visit = Visit {
                    file,
                    targets: local_targets(lines(text)),
                    includes: Seq::empty(),
                    located: 0,
                };
                let begun = State {
                    dlls: libraries(lines(text), s.table, s.dlls),
                    stack: s.stack.push(visit),
                    reading: None,
                    ..s
                };
                assert forall|f: Name| known(s, f) implies known(begun, f) by {
                    if on_stack(s, f) {
                        let i = choose|i: int|
                            0 <= i < s.stack.len() && (#[trigger] s.stack[i]).file == f;
                        assert(begun.stack[i].file == f);
                    }
                    if s.reading == Some(f) {
                        assert(begun.stack[s.stack.len() as int].file == f);
                    }
                }
                assert forall|j: int, i: int|
                    0 <= j < begun.stack.len() && 0 <= i
                        < begun.stack[j].includes.len() implies known(
                    begun,
                    #[trigger] begun.stack[j].includes[i],
                ) by {
                    if j < s.stack.len() {
                        assert(begun.stack[j] == s.stack[j]);
                        assert(known(s, s.stack[j].includes[i]));
                    }
                }
                assert forall|k: Name, i: int|
                    begun.includes.dom().contains(k) && 0 <= i
                        < begun.includes[k].len() implies known(
                    begun,
                    #[trigger] begun.includes[k][i],
                ) by {
                    assert(known(s, s.includes[k][i]));
                }
                assert(linked(begun));
                lemma_settle_linked(begun);
            }
        },
        AnswerView::Location(located) => if let Some(path) = relative_to(s.root, located) {
            if s.reading.is_none() && s.stack.len() > 0 && s.stack.last().located
                < s.stack.last().targets.len() {
                let top = s.stack.last();
                let moved = Visit {
                    includes: if top.includes.contains(path) {
                        top.includes
                    } else {
                        top.includes.push(path)
                    },
                    located: top.located + 1,
                    ..top
                };
                let on = State { stack: s.stack.drop_last().push(moved), ..s };
                let fresh = !s.includes.dom().contains(path) && !s.seen.contains(path);
                let t = if fresh {
                    State { seen: s.seen.insert(path), reading: Some(path), ..on }
                } else {
                    on
                };
                assert forall|f: Name| known(s, f) implies known(t, f) by {
                    if on_stack(s, f) {
                        let i = choose|i: int|
                            0 <= i < s.stack.len() && (#[trigger] s.stack[i]).file == f;
                        assert(t.stack[i].file == f);
                    }
                }
                assert(known(t, path)) by {
                    if !fresh && s.seen.contains(path) {
                        assert(known(s, path));
                    }
                }
                assert forall|j: int, i: int|
                    0 <= j < t.stack.len() && 0 <= i < t.stack[j].includes.len() implies known(
                    t,
                    #[trigger] t.stack[j].includes[i],
                ) by {
                    if j < s.stack.len() - 1 {
                        assert(t.stack[j] == s.stack[j]);
                        assert(known(s, s.stack[j].includes[i]));
                    } else if i < top.includes.len() {
                        assert(t.stack[j].includes[i] == top.includes[i]);
                        assert(known(s, s.stack[s.stack.len() - 1].includes[i]));
                    }
                }
                assert forall|k: Name, i: int|
                    t.includes.dom().contains(k) && 0 <= i < t.includes[k].len() implies known(
                    t,
                    #[trigger] t.includes[k][i],
                ) by {
                    assert(known(s, s.includes[k][i]));
                }
                assert(linked(t));
                if !fresh {
                    lemma_settle_linked(on);
                }
            }
        },
    }
}

/// Whatever answers a run gets, once nothing is pending its graph is whole:
/// every file that an entry lists as an include has an entry of its own.
pub proof fn lemma_idle_graph_is_whole(start: State, answers: Seq<AnswerView>)
    requires
        start == initial(start.root, start.extension, start.table),
    ensures
        linked(run(start, answers)),
        run(start, answers).idle() ==> forall|k: Name, i: int|
            run(start, answers).includes.dom().contains(k) && 0 <= i < run(
                start,
                answers,
            ).includes[k].len() ==> run(start, answers).includes.dom().contains(
                #[trigger] run(start, answers).includes[k][i],
            ),
    decreases answers.len(),
{
    if answers.len() > 0 {
        lemma_idle_graph_is_whole(start, answers.drop_last());
        lemma_next_keeps_linked(run(start, answers.drop_last()), answers.last());
    }
    let end = run(start, answers);
    if end.idle() {
        assert forall|k: Name, i: int|
            end.includes.dom().contains(k) && 0 <= i < end.includes[k].len() implies end.includes.dom().contains(
            #[trigger] end.includes[k][i],
        ) by {
            assert(known(end, end.includes[k][i]));
        }
    }
}

} // verus!
