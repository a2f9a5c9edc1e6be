//! What the generated Makefile says: its text, section by section, as a
//! function of the configuration, the dependency graph and the libraries.
use vstd::prelude::*;
use crate::closure::{closure, Includes, Name};
use crate::path::{extension, stem};
use crate::text::{concat, distinct, join, lemma_distinct, replaced, uppercased};

verus! {

/// Everything the Makefile is made from.
pub struct Project {
    /// The compiler executable.
    pub compiler: Seq<char>,
    /// The extension of the source files.
    pub extension: Seq<char>,
    /// The name of the program to link.
    pub program_name: Seq<char>,
    /// The language standard.
    pub standard: Seq<char>,
    /// The optimisation level, without its leading `-`.
    pub opt_level: Seq<char>,
    /// The files and path prefixes that mark a source as a test.
    pub tests: Seq<Name>,
    /// The files of the dependency graph, in the order of their entries.
    pub files: Seq<Name>,
    /// The direct includes of each file of the graph.
    pub includes: Includes,
    /// The libraries to link.
    pub dlls: Seq<Name>,
}

/// Whether `file` is a test: one of `tests` is the file or a prefix of its
/// path.
pub open spec fn is_test(tests: Seq<Name>, file: Name) -> bool {
    exists|i: int| 0 <= i < tests.len() && (#[trigger] tests[i]).is_prefix_of(file)
}

/// The files among `files` whose extension is `ext`, in order.
pub open spec fn sources(files: Seq<Name>, ext: Seq<char>) -> Seq<Name>
    decreases files.len(),
{
    if files.len() == 0 {
        Seq::empty()
    } else if extension(files.last()) == Some(ext) {
        sources(files.drop_last(), ext).push(files.last())
    } else {
        sources(files.drop_last(), ext)
    }
}

/// The files among `files` that are tests, where `test` holds, or that are
/// none, where it does not; in order.
pub open spec fn select(files: Seq<Name>, tests: Seq<Name>, test: bool) -> Seq<Name>
    decreases files.len(),
{
    if files.len() == 0 {
        Seq::empty()
    } else if is_test(tests, files.last()) == test {
        select(files.drop_last(), tests, test).push(files.last())
    } else {
        select(files.drop_last(), tests, test)
    }
}

/// The name of the variable that holds the dependency closure of `file`:
/// the path without its extension, `/` turned into `_`, in upper case,
/// followed by `_DEPS`.
pub open spec fn deps_var_name(file: Name) -> Seq<char> {
    uppercased(replaced(stem(file), '/', '_')) + "_DEPS"@
}

/// The name that stands for `file` among the objects and the test
/// programs: the path without its extension, `/` turned into `_`.
pub open spec fn object_name(file: Name) -> Seq<char> {
    replaced(stem(file), '/', '_')
}

/// The object file compiled from `file`.
pub open spec fn object_file(file: Name) -> Seq<char> {
    "$(ODIR)/"@ + object_name(file) + ".o"@
}

/// The flag that links `library`.
pub open spec fn link_flag(library: Name) -> Seq<char> {
    "-l"@ + library
}

/// The line of the variable that holds the dependency closure of `file`:
/// every file of the closure is followed by one space.
pub open spec fn dependencies_variable(includes: Includes, file: Name) -> Seq<char> {
    let listed = closure(includes, file);
    deps_var_name(file) + " := "@ + concat(Seq::new(listed.len(), |i: int| listed[i] + " "@))
        + "\n"@
}

/// The rule that compiles `file` into its object file.
pub open spec fn bin_file_target(file: Name, ext: Seq<char>) -> Seq<char> {
    "$(ODIR)/"@ + object_name(file) + ".o: $("@ + deps_var_name(file) + ")"@ + "\n"@
        + "\t$(CC) -c "@ + stem(file) + "."@ + ext + " $(CFLAGS) -o $(ODIR)/"@ + object_name(file)
        + ".o\n\n"@
}

/// The rule that builds the test program of `file`.
pub open spec fn test_file_target(file: Name) -> Seq<char> {
    object_name(file) + " : $("@ + deps_var_name(file) + ")\n"@ + "\t$(CC) $(CFLAGS) "@ + file
        + " $(ALL_BIN_OBJS_WO_MAIN) -o "@ + stem(file) + "\n\n"@
}

/// The rule that creates the object directory.
pub open spec fn object_dir_target() -> Seq<char> {
    "\n$(ODIR):\n"@ + "\t@mkdir $(ODIR)\n\n"@
}

impl Project {
    /// The source files: the files of the graph with the configured
    /// extension.
    pub open spec fn sources(self) -> Seq<Name> {
        sources(self.files, self.extension)
    }

    /// The sources that are tests, each built as a program of its own.
    pub open spec fn test_sources(self) -> Seq<Name> {
        select(self.sources(), self.tests, true)
    }

    /// The sources that are linked into the program.
    pub open spec fn bin_sources(self) -> Seq<Name> {
        select(self.sources(), self.tests, false)
    }

    /// The link flags: one for each library, none twice.
    pub open spec fn link_flags(self) -> Seq<Seq<char>> {
        let libraries = distinct(self.dlls);
        Seq::new(libraries.len(), |i: int| link_flag(libraries[i]))
    }

    /// The object files of the program, in the order of their sources.
    pub open spec fn object_files(self) -> Seq<Seq<char>> {
        let bins = self.bin_sources();
        Seq::new(bins.len(), |i: int| object_file(bins[i]))
    }

    /// The names of the test programs, in the order of their sources.
    pub open spec fn test_names(self) -> Seq<Seq<char>> {
        let tests = self.test_sources();
        Seq::new(tests.len(), |i: int| object_name(tests[i]))
    }

    /// The toolchain section.
    pub open spec fn compiler_variables(self) -> Seq<char> {
        "CC := "@ + self.compiler + "\n"@ + "CFLAGS := -Wall\n"@ + "CFLAGS += -std="@
            + self.standard + "\n"@ + "CFLAGS += -"@ + self.opt_level + "\n"@ + "LFLAGS := "@
            + join(self.link_flags(), " "@) + "\n"@
    }

    /// The object directory and one dependency variable for each source.
    pub open spec fn file_variables(self) -> Seq<char> {
        let files = self.sources();
        "\n"@ + "ODIR := .OBJ\n\n"@ + concat(
            Seq::new(files.len(), |i: int| dependencies_variable(self.includes, files[i])),
        )
    }

    /// The list of object files and the rule that links the program.
    pub open spec fn bin_target(self) -> Seq<char> {
        "BIN_OBJ_FILES := "@ + join(self.object_files(), " "@) + "\n\n"@
            + "bin: $(ODIR) $(BIN_OBJ_FILES)\n"@ + "\t$(CC) $(BIN_OBJ_FILES) -o "@
            + self.program_name + " $(LFLAGS)\n\n"@
    }

    /// One compile rule for each source of the program.
    pub open spec fn bin_files_targets(self) -> Seq<char> {
        let bins = self.bin_sources();
        concat(Seq::new(bins.len(), |i: int| bin_file_target(bins[i], self.extension)))
    }

    /// The objects that tests link against, and the rule that builds all
    /// tests.
    pub open spec fn test_target(self) -> Seq<char> {
        "ALL_BIN_OBJS_WO_MAIN := $(filter-out $(ODIR)/main.o, $(BIN_OBJ_FILES))\n\n"@ + "tests: "@
            + join(self.test_names(), " "@) + "\n\n"@
    }

    /// One rule for each test program.
    pub open spec fn test_file_targets(self) -> Seq<char> {
        let tests = self.test_sources();
        concat(Seq::new(tests.len(), |i: int| test_file_target(tests[i])))
    }

    /// The rule that removes what was built.
    pub open spec fn clean_target(self) -> Seq<char> {
        ".PHONY: clean\n\n"@ + "clean:\n"@ + "\trm -rf .OBJ "@ + self.program_name + "\n"@
    }

    /// The test section: present only where a source is a test.
    pub open spec fn test_section(self) -> Seq<char> {
        if self.test_sources().len() > 0 {
            self.test_target() + self.test_file_targets()
        } else {
            Seq::empty()
        }
    }

    /// All rules.
    pub open spec fn targets(self) -> Seq<char> {
        object_dir_target() + "all: bin\n\n"@ + self.bin_target() + self.bin_files_targets()
            + self.test_section() + self.clean_target()
    }

    /// The whole Makefile.
    pub open spec fn makefile(self) -> Seq<char> {
        self.compiler_variables() + self.file_variables() + self.targets()
    }
}

/// `select` keeps exactly the files on its side of the classification, and
/// repeats none that was not repeated.
pub proof fn lemma_select(files: Seq<Name>, tests: Seq<Name>, test: bool)
    ensures
        forall|f: Name| #[trigger]
            select(files, tests, test).contains(f) <==> files.contains(f) && is_test(tests, f)
                == test,
        files.no_duplicates() ==> select(files, tests, test).no_duplicates(),
    decreases files.len(),
{
    if files.len() > 0 {
        let init = files.drop_last();
        let last = files.last();
        lemma_select(init, tests, test);
        let before = select(init, tests, test);
        let out = select(files, tests, test);
        assert(files == init.push(last));
        assert forall|f: Name| #[trigger] out.contains(f) <==> files.contains(f) && is_test(
            tests,
            f,
        ) == test by {
            if out.contains(f) {
                let k = choose|k: int| 0 <= k < out.len() && out[k] == f;
                if k < before.len() {
                    assert(before[k] == f);
                    assert(before.contains(f));
                    let i = choose|i: int| 0 <= i < init.len() && init[i] == f;
                    assert(files[i] == f);
                } else {
                    assert(files[files.len() - 1] == f);
                }
            }
            if files.contains(f) && is_test(tests, f) == test {
                let i = choose|i: int| 0 <= i < files.len() && files[i] == f;
                if i < init.len() {
                    assert(init[i] == f);
                    assert(init.contains(f));
                    assert(before.contains(f));
                    let k = choose|k: int| 0 <= k < before.len() && before[k] == f;
                    assert(out[k] == f);
                } else {
                    assert(out[before.len() as int] == f);
                }
            }
        }
        if files.no_duplicates() {
            assert(init.no_duplicates());
            if init.contains(last) {
                let i = choose|i: int| 0 <= i < init.len() && init[i] == last;
                assert(files[i] == files[files.len() - 1]);
            }
            assert(!before.contains(last));
        }
    }
}

/// `sources` keeps exactly the files with the extension, and repeats none
/// that was not repeated.
pub proof fn lemma_sources(files: Seq<Name>, ext: Seq<char>)
    ensures
        forall|f: Name| #[trigger]
            sources(files, ext).contains(f) <==> files.contains(f) && extension(f) == Some(ext),
        files.no_duplicates() ==> sources(files, ext).no_duplicates(),
    decreases files.len(),
{
    if files.len() > 0 {
        let init = files.drop_last();
        let last = files.last();
        lemma_sources(init, ext);
        let before = sources(init, ext);
        let out = sources(files, ext);
        assert(files == init.push(last));
        assert forall|f: Name| #[trigger] out.contains(f) <==> files.contains(f) && extension(f)
            == Some(ext) by {
            if out.contains(f) {
                let k = choose|k: int| 0 <= k < out.len() && out[k] == f;
                if k < before.len() {
                    assert(before[k] == f);
                    assert(before.contains(f));
                    let i = choose|i: int| 0 <= i < init.len() && init[i] == f;
                    assert(files[i] == f);
                } else {
                    assert(files[files.len() - 1] == f);
                }
            }
            if files.contains(f) && extension(f) == Some(ext) {
                let i = choose|i: int| 0 <= i < files.len() && files[i] == f;
                if i < init.len() {
                    assert(init[i] == f);
                    assert(init.contains(f));
                    assert(before.contains(f));
                    let k = choose|k: int| 0 <= k < before.len() && before[k] == f;
                    assert(out[k] == f);
                } else {
                    assert(out[before.len() as int] == f);
                }
            }
        }
        if files.no_duplicates() {
            assert(init.no_duplicates());
            if init.contains(last) {
                let i = choose|i: int| 0 <= i < init.len() && init[i] == last;
                assert(files[i] == files[files.len() - 1]);
            }
            assert(!before.contains(last));
        }
    }
}

/// Every source file of a graph whose files are distinct is either a test,
/// built as a program of its own, or a source of the program, compiled to an
/// object: it stands in exactly one of the two lists, there once, and the
/// lists hold nothing else.
pub proof fn lemma_classification_partitions(p: Project)
    requires
        p.files.no_duplicates(),
    ensures
        p.test_sources().no_duplicates(),
        p.bin_sources().no_duplicates(),
        forall|f: Name|
            p.files.contains(f) && extension(f) == Some(p.extension) ==> (
            #[trigger] p.test_sources().contains(f)) != p.bin_sources().contains(f),
        forall|f: Name| #[trigger]
            p.test_sources().contains(f) ==> p.files.contains(f) && extension(f) == Some(
                p.extension,
            ) && is_test(p.tests, f),
        forall|f: Name| #[trigger]
            p.bin_sources().contains(f) ==> p.files.contains(f) && extension(f) == Some(
                p.extension,
            ) && !is_test(p.tests, f),
{
    lemma_sources(p.files, p.extension);
    lemma_select(p.sources(), p.tests, true);
    lemma_select(p.sources(), p.tests, false);
}

/// The link flags name every library once, however often the list of
/// libraries repeats it, and in the order of the list where it repeats none.
pub proof fn lemma_link_flags_distinct(p: Project)
    ensures
        p.link_flags().no_duplicates(),
        forall|l: Name| p.dlls.contains(l) <==> p.link_flags().contains(link_flag(l)),
        p.dlls.no_duplicates() ==> p.link_flags() == Seq::new(
            p.dlls.len(),
            |i: int| link_flag(p.dlls[i]),
        ),
{
    lemma_distinct(p.dlls);
    let libraries = distinct(p.dlls);
    let flags = p.link_flags();
    assert forall|i: int, j: int| 0 <= i < flags.len() && 0 <= j < flags.len() && i
        != j implies flags[i] != flags[j] by {
        lemma_link_flag_injective(libraries[i], libraries[j]);
    }
    assert forall|l: Name| p.dlls.contains(l) <==> flags.contains(link_flag(l)) by {
        if p.dlls.contains(l) {
            assert(libraries.contains(l));
            let k = choose|k: int| 0 <= k < libraries.len() && libraries[k] == l;
            assert(flags[k] == link_flag(l));
        }
        if flags.contains(link_flag(l)) {
            let k = choose|k: int| 0 <= k < flags.len() && flags[k] == link_flag(l);
            lemma_link_flag_injective(libraries[k], l);
            assert(libraries.contains(libraries[k]));
        }
    }
}

/// Different libraries have different flags.
pub proof fn lemma_link_flag_injective(a: Name, b: Name)
    ensures
        link_flag(a) == link_flag(b) ==> a == b,
{
    let prefix = "-l"@;
    if link_flag(a) == link_flag(b) {
        assert(a =~= link_flag(a).skip(prefix.len() as int));
        assert(b =~= link_flag(b).skip(prefix.len() as int));
    }
}

} // verus!
