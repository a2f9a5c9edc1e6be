//! The target emitter: writes the text of the Makefile for a configuration
//! and the result of a resolver run.
use vstd::prelude::*;
use vstd::string::StringExecFns;
use crate::closure::Name;
use crate::config::Config;
use crate::closure::{closure, reaches};
use crate::makefile::{
    bin_file_target, dependencies_variable, deps_var_name, is_test, lemma_classification_partitions,
    lemma_link_flags_distinct, lemma_select, lemma_sources, link_flag, object_dir_target, object_file,
    object_name, select, sources, test_file_target, Project,
};
use crate::parser::ParseResult;
use crate::path::{extension, has_extension, stem};
use crate::text::{
    chars_of, concat, distinct, distinct_texts, find, find_char, join, lemma_find, push_chars,
    push_joined, replaced, starts_with, texts, to_upper, uppercased,
};

verus! {

/// Generates the Makefile of one project.
pub struct MakefileGenerator {
    config: Config,
    parse_result: ParseResult,
}

/// What a generator for `config` and `parse_result` works on.
pub open spec fn project(config: Config, parse_result: ParseResult) -> Project {
    Project {
        compiler: config.compiler@,
        extension: config.extension@,
        program_name: config.program_name@,
        standard: config.standard@,
        opt_level: config.opt_level@,
        tests: texts(config.tests@),
        files: parse_result.dependency_map.keys(),
        includes: parse_result.dependency_map@,
        dlls: texts(parse_result.dlls@),
    }
}

impl View for MakefileGenerator {
    type V = Project;

    closed spec fn view(&self) -> Project {
        project(self.config, self.parse_result)
    }
}

/// Appends `stem(chars)` to `out`, `/` turned into `_`, in upper case where
/// `upper` holds.
fn push_object_name(out: &mut String, chars: &Vec<char>, upper: bool)
    ensures
        final(out)@ == old(out)@ + (if upper {
            uppercased(object_name(chars@))
        } else {
            object_name(chars@)
        }),
{
    let end = find_char(chars, '.', 0);
    proof {
        lemma_find(chars@, '.', 0);
    }
    let ghost name = object_name(chars@);
    let ghost wanted = if upper {
        uppercased(name)
    } else {
        name
    };
    let mut i: usize = 0;
    while i < end
        invariant
            i <= end <= chars.len(),
            end == find(chars@, '.', 0),
            name == object_name(chars@),
            wanted == (if upper {
                uppercased(name)
            } else {
                name
            }),
            out@ == old(out)@ + wanted.take(i as int),
        decreases end - i,
    {
        let c = if chars[i] == '/' {
            '_'
        } else {
            chars[i]
        };
        assert(name[i as int] == c);
        if upper {
            out.push(to_upper(c));
        } else {
            out.push(c);
        }
        i = i + 1;
        assert(wanted.take(i as int) == wanted.take(i - 1).push(wanted[i - 1]));
    }
    assert(wanted.take(end as int) == wanted);
}

/// The name that stands for `file` among the objects and the test programs.
pub fn object_name_of(file: &str) -> (out: String)
    ensures
        out@ == object_name(file@),
{
    let chars = chars_of(file);
    let mut out = String::new();
    push_object_name(&mut out, &chars, false);
    out
}

/// Says whether `file` is a test: one of `tests` is the file or a prefix of
/// its path.
pub fn is_test_source(tests: &Vec<String>, file: &str) -> (yes: bool)
    ensures
        yes == is_test(texts(tests@), file@),
{
    let chars = chars_of(file);
    let mut i: usize = 0;
    while i < tests.len()
        invariant
            i <= tests.len(),
            chars@ == file@,
            forall|j: int| 0 <= j < i ==> !(#[trigger] texts(tests@)[j]).is_prefix_of(file@),
        decreases tests.len() - i,
    {
        let prefix = chars_of(tests[i].as_str());
        if starts_with(&chars, &prefix) {
            assert(texts(tests@)[i as int].is_prefix_of(file@));
            return true;
        }
        i = i + 1;
    }
    false
}

impl MakefileGenerator {
    /// A generator for `config` and the result of a resolver run.
    pub fn new(config: Config, parse_result: ParseResult) -> (out: Self)
        ensures
            out@ == project(config, parse_result),
    {
        Self { config, parse_result }
    }

    /// The name of the variable that holds the dependency closure of
    /// `filename`.
    pub fn get_deps_var_name_for_file(&self, filename: &str) -> (out: String)
        ensures
            out@ == deps_var_name(filename@),
    {
        let chars = chars_of(filename);
        let mut out = String::new();
        push_object_name(&mut out, &chars, true);
        out.append("_DEPS");
        out
    }

    /// The source files: the files of the graph with the configured
    /// extension, in the order of their entries.
    pub fn source_files(&self) -> (out: Vec<String>)
        ensures
            texts(out@) == self@.sources(),
            texts(out@).no_duplicates(),
            forall|f: Name| #[trigger]
                texts(out@).contains(f) <==> self@.files.contains(f) && extension(f) == Some(
                    self@.extension,
                ),
    {
        proof {
            use_type_invariant(&self.parse_result.dependency_map);
            self.parse_result.dependency_map.lemma_wf();
            lemma_sources(self@.files, self@.extension);
        }
        let map = &self.parse_result.dependency_map;
        let ghost files = map.keys();
        let mut out: Vec<String> = Vec::new();
        let mut i: usize = 0;
        assert(files.take(0) =~= Seq::<Name>::empty());
        assert(texts(out@) =~= Seq::<Name>::empty());
        while i < map.len()
            invariant
                i <= files.len(),
                files == map.keys(),
                map == &self.parse_result.dependency_map,
                texts(out@) == sources(files.take(i as int), self.config.extension@),
            decreases files.len() - i,
        {
            let ghost upto = files.take(i + 1);
            assert(upto.drop_last() =~= files.take(i as int));
            assert(upto.last() == files[i as int]);
            let file = map.file(i);
            if has_extension(file.as_str(), self.config.extension.as_str()) {
                let ghost before = texts(out@);
                out.push(file.clone());
                assert(texts(out@) =~= before.push(files[i as int]));
            }
            i = i + 1;
        }
        assert(files.take(files.len() as int) =~= files);
        out
    }

    /// The sources on one side of the classification: the tests, where
    /// `test` holds, or the sources of the program.
    fn classified(&self, test: bool) -> (out: Vec<String>)
        ensures
            texts(out@) == select(self@.sources(), self@.tests, test),
    {
        let all = self.source_files();
        let ghost files = texts(all@);
        let mut out: Vec<String> = Vec::new();
        let mut i: usize = 0;
        assert(files.take(0) =~= Seq::<Name>::empty());
        assert(texts(out@) =~= Seq::<Name>::empty());
        while i < all.len()
            invariant
                i <= all.len(),
                files == texts(all@),
                texts(out@) == select(files.take(i as int), texts(self.config.tests@), test),
            decreases all.len() - i,
        {
            let ghost upto = files.take(i + 1);
            assert(upto.drop_last() =~= files.take(i as int));
            assert(upto.last() == files[i as int]);
            if is_test_source(&self.config.tests, all[i].as_str()) == test {
                let ghost before = texts(out@);
                out.push(all[i].clone());
                assert(texts(out@) =~= before.push(files[i as int]));
            }
            i = i + 1;
        }
        assert(files.take(all.len() as int) =~= files);
        out
    }

    /// The sources that are tests, each built as a program of its own: the
    /// sources that are no source of the program, each once.
    pub fn test_sources(&self) -> (out: Vec<String>)
        ensures
            texts(out@) == self@.test_sources(),
            texts(out@).no_duplicates(),
            forall|f: Name| #[trigger]
                texts(out@).contains(f) <==> self@.sources().contains(f)
                    && !self@.bin_sources().contains(f),
    {
        proof {
            use_type_invariant(&self.parse_result.dependency_map);
            self.parse_result.dependency_map.lemma_wf();
            lemma_classification_partitions(self@);
            lemma_sources(self@.files, self@.extension);
            lemma_select(self@.sources(), self@.tests, true);
            lemma_select(self@.sources(), self@.tests, false);
        }
        self.classified(true)
    }

    /// The sources that are linked into the program: the sources that are
    /// no test, each once.
    pub fn bin_sources(&self) -> (out: Vec<String>)
        ensures
            texts(out@) == self@.bin_sources(),
            texts(out@).no_duplicates(),
            forall|f: Name| #[trigger]
                texts(out@).contains(f) <==> self@.sources().contains(f)
                    && !self@.test_sources().contains(f),
    {
        proof {
            use_type_invariant(&self.parse_result.dependency_map);
            self.parse_result.dependency_map.lemma_wf();
            lemma_classification_partitions(self@);
            lemma_sources(self@.files, self@.extension);
            lemma_select(self@.sources(), self@.tests, true);
            lemma_select(self@.sources(), self@.tests, false);
        }
        self.classified(false)
    }

    /// The dependency closure of `file`: the file itself, then every file it
    /// includes directly or through other files, each once.
    pub fn print_file_dependecies(&self, filename: &String) -> (out: Vec<String>)
        ensures
            texts(out@) == closure(self@.includes, filename@),
            texts(out@).no_duplicates(),
            forall|x: Name| #[trigger]
                texts(out@).contains(x) <==> reaches(self@.includes, filename@, x),
    {
        self.parse_result.dependency_map.closure_of(filename)
    }

    /// The link flags: one for each library, none twice.
    pub fn link_flags(&self) -> (out: Vec<String>)
        ensures
            texts(out@) == self@.link_flags(),
            texts(out@).no_duplicates(),
            forall|l: Name| self@.dlls.contains(l) <==> texts(out@).contains(link_flag(l)),
    {
        proof {
            lemma_link_flags_distinct(self@);
        }
        let libraries = distinct_texts(&self.parse_result.dlls);
        let ghost wanted = self@.link_flags();
        let mut out: Vec<String> = Vec::new();
        let mut i: usize = 0;
        while i < libraries.len()
            invariant
                i <= libraries.len(),
                texts(libraries@) == distinct(self@.dlls),
                wanted == self@.link_flags(),
                out.len() == i,
                forall|k: int| 0 <= k < i ==> (#[trigger] out@[k])@ == wanted[k],
            decreases libraries.len() - i,
        {
            let mut flag = String::from_str("-l");
            flag.append(libraries[i].as_str());
            assert(texts(libraries@)[i as int] == libraries@[i as int]@);
            assert(flag@ == link_flag(distinct(self@.dlls)[i as int]));
            out.push(flag);
            i = i + 1;
        }
        assert(texts(out@) =~= wanted);
        out
    }

    /// Writes the toolchain section.
    fn generate_compiler_variables(&self, makefile: &mut String)
        ensures
            final(makefile)@ == old(makefile)@ + self@.compiler_variables(),
    {
        let flags = self.link_flags();
        makefile.append("CC := ");
        makefile.append(self.config.compiler.as_str());
        makefile.append("\n");
        makefile.append("CFLAGS := -Wall\n");
        makefile.append("CFLAGS += -std=");
        makefile.append(self.config.standard.as_str());
        makefile.append("\n");
        makefile.append("CFLAGS += -");
        makefile.append(self.config.opt_level.as_str());
        makefile.append("\n");
        makefile.append("LFLAGS := ");
        push_joined(makefile, &flags, " ");
        makefile.append("\n");
        assert(makefile@ =~= old(makefile)@ + self@.compiler_variables());
    }

    /// Writes the variable that holds the dependency closure of `file`.
    fn generate_dependencies_variable_for_file(&self, file: &String, makefile: &mut String)
        ensures
            final(makefile)@ == old(makefile)@ + dependencies_variable(self@.includes, file@),
    {
        let name = self.get_deps_var_name_for_file(file.as_str());
        let listed = self.print_file_dependecies(file);
        let ghost names = texts(listed@);
        let ghost parts = Seq::new(names.len(), |i: int| names[i] + " "@);
        makefile.append(name.as_str());
        makefile.append(" := ");
        let ghost start = makefile@;
        let mut i: usize = 0;
        assert(parts.take(0) =~= Seq::<Seq<char>>::empty());
        while i < listed.len()
            invariant
                i <= listed.len(),
                names == texts(listed@),
                parts == Seq::new(names.len(), |i: int| names[i] + " "@),
                makefile@ == start + concat(parts.take(i as int)),
            decreases listed.len() - i,
        {
            let ghost upto = parts.take(i + 1);
            assert(upto.drop_last() =~= parts.take(i as int));
            assert(upto.last() == names[i as int] + " "@);
            makefile.append(listed[i].as_str());
            makefile.append(" ");
            i = i + 1;
            assert(makefile@ =~= start + concat(upto));
        }
        assert(parts.take(listed.len() as int) =~= parts);
        makefile.append("\n");
        assert(makefile@ =~= old(makefile)@ + dependencies_variable(self@.includes, file@));
    }

    /// Writes the object directory and one dependency variable for each
    /// source.
    fn generate_file_variables(&self, makefile: &mut String)
        ensures
            final(makefile)@ == old(makefile)@ + self@.file_variables(),
    {
        let files = self.source_files();
        let ghost names = texts(files@);
        let ghost parts = Seq::new(
            names.len(),
            |i: int| dependencies_variable(self@.includes, names[i]),
        );
        makefile.append("\n");
        makefile.append("ODIR := .OBJ\n\n");
        let ghost start = makefile@;
        let mut i: usize = 0;
        assert(parts.take(0) =~= Seq::<Seq<char>>::empty());
        while i < files.len()
            invariant
                i <= files.len(),
                names == texts(files@),
                parts == Seq::new(
                    names.len(),
                    |i: int| dependencies_variable(self@.includes, names[i]),
                ),
                makefile@ == start + concat(parts.take(i as int)),
            decreases files.len() - i,
        {
            let ghost upto = parts.take(i + 1);
            assert(upto.drop_last() =~= parts.take(i as int));
            assert(upto.last() == dependencies_variable(self@.includes, names[i as int]));
            self.generate_dependencies_variable_for_file(&files[i], makefile);
            i = i + 1;
            assert(makefile@ =~= start + concat(upto));
        }
        assert(parts.take(files.len() as int) =~= parts);
        assert(makefile@ =~= old(makefile)@ + self@.file_variables());
    }

    /// Writes the rule that creates the object directory.
    fn generate_object_dir_target(&self, makefile: &mut String)
        ensures
            final(makefile)@ == old(makefile)@ + object_dir_target(),
    {
        makefile.append("\n$(ODIR):\n");
        makefile.append("\t@mkdir $(ODIR)\n\n");
        assert(makefile@ =~= old(makefile)@ + object_dir_target());
    }

    /// The object files of the program, in the order of their sources.
    pub fn object_files(&self) -> (out: Vec<String>)
        ensures
            texts(out@) == self@.object_files(),
    {
        let bins = self.bin_sources();
        let ghost wanted = self@.object_files();
        let mut out: Vec<String> = Vec::new();
        let mut i: usize = 0;
        while i < bins.len()
            invariant
                i <= bins.len(),
                texts(bins@) == self@.bin_sources(),
                wanted == self@.object_files(),
                out.len() == i,
                forall|k: int| 0 <= k < i ==> (#[trigger] out@[k])@ == wanted[k],
            decreases bins.len() - i,
        {
            let chars = chars_of(bins[i].as_str());
            let mut name = String::from_str("$(ODIR)/");
            push_object_name(&mut name, &chars, false);
            name.append(".o");
            assert(texts(bins@)[i as int] == bins@[i as int]@);
            assert(name@ == object_file(self@.bin_sources()[i as int]));
            out.push(name);
            i = i + 1;
        }
        assert(texts(out@) =~= wanted);
        out
    }

    /// The names of the test programs, in the order of their sources.
    pub fn test_names(&self) -> (out: Vec<String>)
        ensures
            texts(out@) == self@.test_names(),
    {
        let tests = self.test_sources();
        let ghost wanted = self@.test_names();
        let mut out: Vec<String> = Vec::new();
        let mut i: usize = 0;
        while i < tests.len()
            invariant
                i <= tests.len(),
                texts(tests@) == self@.test_sources(),
                wanted == self@.test_names(),
                out.len() == i,
                forall|k: int| 0 <= k < i ==> (#[trigger] out@[k])@ == wanted[k],
            decreases tests.len() - i,
        {
            let name = object_name_of(tests[i].as_str());
            assert(texts(tests@)[i as int] == tests@[i as int]@);
            out.push(name);
            i = i + 1;
        }
        assert(texts(out@) =~= wanted);
        out
    }

    /// Writes the list of object files and the rule that links the program.
    fn generate_bin_target(&self, makefile: &mut String)
        ensures
            final(makefile)@ == old(makefile)@ + self@.bin_target(),
    {
        let objects = self.object_files();
        makefile.append("BIN_OBJ_FILES := ");
        push_joined(makefile, &objects, " ");
        makefile.append("\n\n");
        makefile.append("bin: $(ODIR) $(BIN_OBJ_FILES)\n");
        makefile.append("\t$(CC) $(BIN_OBJ_FILES) -o ");
        makefile.append(self.config.program_name.as_str());
        makefile.append(" $(LFLAGS)\n\n");
        assert(makefile@ =~= old(makefile)@ + self@.bin_target());
    }

    /// Writes the rule that compiles `file` into its object file.
    fn generate_bin_file_target(&self, file: &String, makefile: &mut String)
        ensures
            final(makefile)@ == old(makefile)@ + bin_file_target(file@, self@.extension),
    {
        let chars = chars_of(file.as_str());
        let variable = self.get_deps_var_name_for_file(file.as_str());
        let end = find_char(&chars, '.', 0);
        proof {
            lemma_find(chars@, '.', 0);
            assert(chars@.subrange(0, end as int) =~= stem(file@));
        }
        makefile.append("$(ODIR)/");
        push_object_name(makefile, &chars, false);
        makefile.append(".o: $(");
        makefile.append(variable.as_str());
        makefile.append(")");
        makefile.append("\n");
        makefile.append("\t$(CC) -c ");
        push_chars(makefile, &chars, 0, end);
        makefile.append(".");
        makefile.append(self.config.extension.as_str());
        makefile.append(" $(CFLAGS) -o $(ODIR)/");
        push_object_name(makefile, &chars, false);
        makefile.append(".o\n\n");
        assert(makefile@ =~= old(makefile)@ + bin_file_target(file@, self@.extension));
    }

    /// Writes one compile rule for each source of the program.
    fn generate_bin_files_targets(&self, makefile: &mut String)
        ensures
            final(makefile)@ == old(makefile)@ + self@.bin_files_targets(),
    {
        let bins = self.bin_sources();
        let ghost names = texts(bins@);
        let ghost parts = Seq::new(
            names.len(),
            |i: int| bin_file_target(names[i], self@.extension),
        );
        let ghost start = makefile@;
        let mut i: usize = 0;
        assert(parts.take(0) =~= Seq::<Seq<char>>::empty());
        assert(start + concat(parts.take(0)) =~= start);
        while i < bins.len()
            invariant
                i <= bins.len(),
                names == texts(bins@),
                parts == Seq::new(names.len(), |i: int| bin_file_target(names[i], self@.extension)),
                makefile@ == start + concat(parts.take(i as int)),
            decreases bins.len() - i,
        {
            let ghost upto = parts.take(i + 1);
            assert(upto.drop_last() =~= parts.take(i as int));
            assert(upto.last() == bin_file_target(names[i as int], self@.extension));
            self.generate_bin_file_target(&bins[i], makefile);
            i = i + 1;
            assert(makefile@ =~= start + concat(upto));
        }
        assert(parts.take(bins.len() as int) =~= parts);
    }

    /// Writes the objects that tests link against, and the rule that builds
    /// all tests.
    fn generate_test_target(&self, makefile: &mut String)
        ensures
            final(makefile)@ == old(makefile)@ + self@.test_target(),
    {
        let names = self.test_names();
        makefile.append(
            "ALL_BIN_OBJS_WO_MAIN := $(filter-out $(ODIR)/main.o, $(BIN_OBJ_FILES))\n\n",
        );
        makefile.append("tests: ");
        push_joined(makefile, &names, " ");
        makefile.append("\n\n");
        assert(makefile@ =~= old(makefile)@ + self@.test_target());
    }

    /// Writes the rule that builds the test program of `file`.
    fn generate_test_file_target(&self, file: &String, makefile: &mut String)
        ensures
            final(makefile)@ == old(makefile)@ + test_file_target(file@),
    {
        let chars = chars_of(file.as_str());
        let variable = self.get_deps_var_name_for_file(file.as_str());
        let end = find_char(&chars, '.', 0);
        proof {
            lemma_find(chars@, '.', 0);
            assert(chars@.subrange(0, end as int) =~= stem(file@));
        }
        push_object_name(makefile, &chars, false);
        makefile.append(" : $(");
        makefile.append(variable.as_str());
        makefile.append(")\n");
        makefile.append("\t$(CC) $(CFLAGS) ");
        makefile.append(file.as_str());
        makefile.append(" $(ALL_BIN_OBJS_WO_MAIN) -o ");
        push_chars(makefile, &chars, 0, end);
        makefile.append("\n\n");
        assert(makefile@ =~= old(makefile)@ + test_file_target(file@));
    }

    /// Writes one rule for each test program.
    fn generate_test_file_targets(&self, makefile: &mut String)
        ensures
            final(makefile)@ == old(makefile)@ + self@.test_file_targets(),
    {
        let tests = self.test_sources();
        let ghost names = texts(tests@);
        let ghost parts = Seq::new(names.len(), |i: int| test_file_target(names[i]));
        let ghost start = makefile@;
        let mut i: usize = 0;
        assert(parts.take(0) =~= Seq::<Seq<char>>::empty());
        assert(start + concat(parts.take(0)) =~= start);
        while i < tests.len()
            invariant
                i <= tests.len(),
                names == texts(tests@),
                parts == Seq::new(names.len(), |i: int| test_file_target(names[i])),
                makefile@ == start + concat(parts.take(i as int)),
            decreases tests.len() - i,
        {
            let ghost upto = parts.take(i + 1);
            assert(upto.drop_last() =~= parts.take(i as int));
            assert(upto.last() == test_file_target(names[i as int]));
            self.generate_test_file_target(&tests[i], makefile);
            i = i + 1;
            assert(makefile@ =~= start + concat(upto));
        }
        assert(parts.take(tests.len() as int) =~= parts);
    }

    /// Writes the rule that removes what was built.
    fn generate_clean_target(&self, makefile: &mut String)
        ensures
            final(makefile)@ == old(makefile)@ + self@.clean_target(),
    {
        makefile.append(".PHONY: clean\n\n");
        makefile.append("clean:\n");
        makefile.append("\trm -rf .OBJ ");
        makefile.append(self.config.program_name.as_str());
        makefile.append("\n");
        assert(makefile@ =~= old(makefile)@ + self@.clean_target());
    }

    /// Writes all rules. The test section is written only where a source is
    /// a test.
    fn generate_targets(&self, makefile: &mut String)
        ensures
            final(makefile)@ == old(makefile)@ + self@.targets(),
    {
        self.generate_object_dir_target(makefile);
        makefile.append("all: bin\n\n");
        self.generate_bin_target(makefile);
        self.generate_bin_files_targets(makefile);
        let ghost before_tests = makefile@;
        if self.test_sources().len() > 0 {
            self.generate_test_target(makefile);
            self.generate_test_file_targets(makefile);
            assert(makefile@ =~= before_tests + self@.test_section());
        } else {
            assert(makefile@ =~= before_tests + self@.test_section());
        }
        self.generate_clean_target(makefile);
        assert(makefile@ =~= old(makefile)@ + self@.targets());
    }

    /// The text of the Makefile.
    pub fn generate_makefile(&self) -> (out: String)
        ensures
            out@ == self@.makefile(),
    {
        let mut makefile = String::new();
        self.generate_compiler_variables(&mut makefile);
        self.generate_file_variables(&mut makefile);
        self.generate_targets(&mut makefile);
        assert(makefile@ =~= self@.makefile());
        makefile
    }
}

} // verus!
