use makegen::config::Config;
use makegen::generator::{is_test_source, object_name_of, MakefileGenerator};
use makegen::graph::DependencyMap;
use makegen::parser::ParseResult;

fn strings(items: &[&str]) -> Vec<String> {
    items.iter().map(|s| s.to_string()).collect()
}

fn config(extension: &str, tests: &[&str]) -> Config {
    Config {
        compiler: "gcc".to_string(),
        extension: extension.to_string(),
        program_name: "prog".to_string(),
        standard: "c99".to_string(),
        opt_level: "O0".to_string(),
        tests: strings(tests),
    }
}

fn graph(entries: &[(&str, &[&str])]) -> DependencyMap {
    let mut map = DependencyMap::new();
    for (file, includes) in entries {
        assert!(map.insert(file.to_string(), strings(includes)));
    }
    map
}

fn small_graph() -> DependencyMap {
    graph(&[("util.h", &[]), ("main.c", &["util.h"]), ("util.c", &["util.h"])])
}

fn generator(extension: &str, tests: &[&str], map: DependencyMap, dlls: &[&str]) -> MakefileGenerator {
    MakefileGenerator::new(config(extension, tests), ParseResult::new(map, strings(dlls)))
}

#[test]
fn small_tree_without_tests_gives_one_program_of_two_objects() {
    let text = generator("c", &["tests"], small_graph(), &["m"]).generate_makefile();
    let expected = [
        "CC := gcc",
        "CFLAGS := -Wall",
        "CFLAGS += -std=c99",
        "CFLAGS += -O0",
        "LFLAGS := -lm",
        "",
        "ODIR := .OBJ",
        "",
        "MAIN_DEPS := main.c util.h ",
        "UTIL_DEPS := util.c util.h ",
        "",
        "$(ODIR):",
        "\t@mkdir $(ODIR)",
        "",
        "all: bin",
        "",
        "BIN_OBJ_FILES := $(ODIR)/main.o $(ODIR)/util.o",
        "",
        "bin: $(ODIR) $(BIN_OBJ_FILES)",
        "\t$(CC) $(BIN_OBJ_FILES) -o prog $(LFLAGS)",
        "",
        "$(ODIR)/main.o: $(MAIN_DEPS)",
        "\t$(CC) -c main.c $(CFLAGS) -o $(ODIR)/main.o",
        "",
        "$(ODIR)/util.o: $(UTIL_DEPS)",
        "\t$(CC) -c util.c $(CFLAGS) -o $(ODIR)/util.o",
        "",
        ".PHONY: clean",
        "",
        "clean:",
        "\trm -rf .OBJ prog",
    ]
    .join("\n")
        + "\n";
    assert_eq!(text, expected);
    assert!(!text.contains("tests:"));
    assert!(!text.contains("ALL_BIN_OBJS_WO_MAIN"));
}

#[test]
fn source_named_as_test_is_built_as_a_program_of_its_own() {
    let text = generator("c", &["util.c"], small_graph(), &["m"]).generate_makefile();
    let expected = [
        "CC := gcc",
        "CFLAGS := -Wall",
        "CFLAGS += -std=c99",
        "CFLAGS += -O0",
        "LFLAGS := -lm",
        "",
        "ODIR := .OBJ",
        "",
        "MAIN_DEPS := main.c util.h ",
        "UTIL_DEPS := util.c util.h ",
        "",
        "$(ODIR):",
        "\t@mkdir $(ODIR)",
        "",
        "all: bin",
        "",
        "BIN_OBJ_FILES := $(ODIR)/main.o",
        "",
        "bin: $(ODIR) $(BIN_OBJ_FILES)",
        "\t$(CC) $(BIN_OBJ_FILES) -o prog $(LFLAGS)",
        "",
        "$(ODIR)/main.o: $(MAIN_DEPS)",
        "\t$(CC) -c main.c $(CFLAGS) -o $(ODIR)/main.o",
        "",
        "ALL_BIN_OBJS_WO_MAIN := $(filter-out $(ODIR)/main.o, $(BIN_OBJ_FILES))",
        "",
        "tests: util",
        "",
        "util : $(UTIL_DEPS)",
        "\t$(CC) $(CFLAGS) util.c $(ALL_BIN_OBJS_WO_MAIN) -o util",
        "",
        ".PHONY: clean",
        "",
        "clean:",
        "\trm -rf .OBJ prog",
    ]
    .join("\n")
        + "\n";
    assert_eq!(text, expected);
    assert!(!text.contains("$(ODIR)/util.o"));
}

#[test]
fn empty_graph_gives_the_frame_of_a_makefile() {
    let mut cfg = config("cpp", &["tests"]);
    cfg.compiler = "g++".to_string();
    cfg.standard = "c++11".to_string();
    cfg.opt_level = "O2".to_string();
    cfg.program_name = "app".to_string();
    let text =
        MakefileGenerator::new(cfg, ParseResult::new(DependencyMap::new(), Vec::new())).generate_makefile();
    let expected = [
        "CC := g++",
        "CFLAGS := -Wall",
        "CFLAGS += -std=c++11",
        "CFLAGS += -O2",
        "LFLAGS := ",
        "",
        "ODIR := .OBJ",
        "",
        "",
        "$(ODIR):",
        "\t@mkdir $(ODIR)",
        "",
        "all: bin",
        "",
        "BIN_OBJ_FILES := ",
        "",
        "bin: $(ODIR) $(BIN_OBJ_FILES)",
        "\t$(CC) $(BIN_OBJ_FILES) -o app $(LFLAGS)",
        "",
        ".PHONY: clean",
        "",
        "clean:",
        "\trm -rf .OBJ app",
    ]
    .join("\n")
        + "\n";
    assert_eq!(text, expected);
}

#[test]
fn optimisation_level_is_part_of_the_compile_flags() {
    let text = generator("c", &["tests"], small_graph(), &[]).generate_makefile();
    assert!(text.contains("\nCFLAGS += -O0\n"));
    assert!(!text.contains("CLFAGS"));
}

#[test]
fn link_flags_name_every_library_once() {
    let gen = generator("c", &["tests"], small_graph(), &["m", "pthread", "m", "ncurses", "pthread"]);
    assert_eq!(gen.link_flags(), strings(&["-lm", "-lpthread", "-lncurses"]));
    let text = gen.generate_makefile();
    assert!(text.contains("\nLFLAGS := -lm -lpthread -lncurses\n"));
}

#[test]
fn link_flags_keep_the_order_of_the_libraries() {
    let gen = generator("c", &["tests"], small_graph(), &["pthread", "m"]);
    assert_eq!(gen.link_flags(), strings(&["-lpthread", "-lm"]));
    assert!(generator("c", &[], small_graph(), &[]).link_flags().is_empty());
}

#[test]
fn variable_name_is_the_stem_made_a_token_in_upper_case() {
    let gen = generator("c", &["tests"], small_graph(), &[]);
    assert_eq!(gen.get_deps_var_name_for_file("main.c"), "MAIN_DEPS");
    assert_eq!(gen.get_deps_var_name_for_file("src/net/socket.cpp"), "SRC_NET_SOCKET_DEPS");
    assert_eq!(gen.get_deps_var_name_for_file("lib9/a-b_c.c"), "LIB9_A-B_C_DEPS");
    assert_eq!(gen.get_deps_var_name_for_file("archive.tar.gz"), "ARCHIVE_DEPS");
    assert_eq!(gen.get_deps_var_name_for_file("Makefile"), "MAKEFILE_DEPS");
    assert_eq!(gen.get_deps_var_name_for_file("día/ñu.c"), "DíA_ñU_DEPS");
    assert_eq!(gen.get_deps_var_name_for_file(""), "_DEPS");
}

#[test]
fn object_name_is_the_stem_made_a_token() {
    assert_eq!(object_name_of("main.c"), "main");
    assert_eq!(object_name_of("src/net/socket.cpp"), "src_net_socket");
    assert_eq!(object_name_of("tests/unit/One.c"), "tests_unit_One");
}

#[test]
fn test_is_a_file_or_a_prefix_of_its_path() {
    let tests = strings(&["tests", "check.c"]);
    assert!(is_test_source(&tests, "tests/a.c"));
    assert!(is_test_source(&tests, "tests.c"));
    assert!(is_test_source(&tests, "tests"));
    assert!(is_test_source(&tests, "check.c"));
    assert!(is_test_source(&tests, "check.cpp"));
    assert!(!is_test_source(&tests, "src/tests/a.c"));
    assert!(!is_test_source(&tests, "test.c"));
    assert!(!is_test_source(&tests, "main.c"));
    assert!(!is_test_source(&Vec::new(), "tests/a.c"));
    assert!(is_test_source(&strings(&[""]), "main.c"));
}

#[test]
fn sources_are_the_files_with_the_extension() {
    let map = graph(&[
        ("a.h", &[]),
        ("main.cpp", &["a.h"]),
        ("legacy.c", &[]),
        ("tests/t.cpp", &["a.h"]),
        ("tests/helper.h", &[]),
    ]);
    let gen = generator("cpp", &["tests"], map, &[]);
    assert_eq!(gen.source_files(), strings(&["main.cpp", "tests/t.cpp"]));
    assert_eq!(gen.bin_sources(), strings(&["main.cpp"]));
    assert_eq!(gen.test_sources(), strings(&["tests/t.cpp"]));
    assert_eq!(gen.object_files(), strings(&["$(ODIR)/main.o"]));
    assert_eq!(gen.test_names(), strings(&["tests_t"]));
    let text = gen.generate_makefile();
    assert!(!text.contains("helper"));
    assert!(!text.contains("legacy"));
}

#[test]
fn every_source_is_a_test_or_a_source_of_the_program_never_both() {
    let files = ["main.c", "util.c", "tests/a.c", "tests/b.c", "bench/x.c", "bench.c", "lib/tests/y.c"];
    let entries: Vec<(&str, &[&str])> = files.iter().map(|f| (*f, &[][..])).collect();
    for tests in [&["tests"][..], &["tests", "bench"][..], &["tests", "util.c", "nothing"][..], &[][..], &[""][..]] {
        let gen = generator("c", tests, graph(&entries), &[]);
        let bins = gen.bin_sources();
        let test_sources = gen.test_sources();
        for file in files {
            let as_bin = bins.iter().filter(|f| *f == file).count();
            let as_test = test_sources.iter().filter(|f| *f == file).count();
            assert_eq!(as_bin + as_test, 1, "{} with {:?}", file, tests);
        }
        assert_eq!(bins.len() + test_sources.len(), files.len());
    }
}

#[test]
fn several_test_names_leave_the_other_sources_in_the_program() {
    let map = graph(&[("main.c", &[]), ("tests/a.c", &[]), ("bench/b.c", &[])]);
    let gen = generator("c", &["tests", "bench"], map, &[]);
    assert_eq!(gen.bin_sources(), strings(&["main.c"]));
    assert_eq!(gen.test_sources(), strings(&["tests/a.c", "bench/b.c"]));
    let text = gen.generate_makefile();
    assert!(text.contains("\nBIN_OBJ_FILES := $(ODIR)/main.o\n"));
    assert!(text.contains("\ntests: tests_a bench_b\n"));
    assert!(text.contains("\ntests_a : $(TESTS_A_DEPS)\n\t$(CC) $(CFLAGS) tests/a.c $(ALL_BIN_OBJS_WO_MAIN) -o tests/a\n"));
    assert!(text.contains("\nbench_b : $(BENCH_B_DEPS)\n\t$(CC) $(CFLAGS) bench/b.c $(ALL_BIN_OBJS_WO_MAIN) -o bench/b\n"));
}

#[test]
fn test_name_that_matches_no_file_leaves_out_the_test_section() {
    let text = generator("c", &["nothing", "tests"], small_graph(), &[]).generate_makefile();
    assert!(!text.contains("tests:"));
    assert!(!text.contains("ALL_BIN_OBJS_WO_MAIN"));
    assert!(text.contains("\nBIN_OBJ_FILES := $(ODIR)/main.o $(ODIR)/util.o\n"));
}

#[test]
fn header_under_a_test_directory_is_no_test() {
    let map = graph(&[("main.c", &["tests/x.h"]), ("tests/x.h", &[])]);
    let gen = generator("c", &["tests"], map, &[]);
    assert!(gen.test_sources().is_empty());
    assert!(!gen.generate_makefile().contains("tests:"));
}

#[test]
fn dependency_variable_of_a_cycle_lists_both_files_once() {
    let map = graph(&[("a.h", &["b.h"]), ("b.h", &["a.h"])]);
    let gen = generator("h", &[], map, &[]);
    assert_eq!(gen.print_file_dependecies(&"a.h".to_string()), strings(&["a.h", "b.h"]));
    assert_eq!(gen.print_file_dependecies(&"b.h".to_string()), strings(&["b.h", "a.h"]));
    let text = gen.generate_makefile();
    assert!(text.contains("\nA_DEPS := a.h b.h \nB_DEPS := b.h a.h \n"));
}

#[test]
fn dependency_variable_holds_the_whole_closure() {
    let map = graph(&[
        ("src/main.c", &["src/a.h", "src/b.h"]),
        ("src/a.h", &["src/c.h"]),
        ("src/b.h", &["src/c.h"]),
        ("src/c.h", &[]),
    ]);
    let text = generator("c", &["tests"], map, &[]).generate_makefile();
    assert!(text.contains("\nSRC_MAIN_DEPS := src/main.c src/a.h src/c.h src/b.h \n"));
    assert!(text.contains("\n$(ODIR)/src_main.o: $(SRC_MAIN_DEPS)\n\t$(CC) -c src/main.c $(CFLAGS) -o $(ODIR)/src_main.o\n"));
}

#[test]
fn same_inputs_give_the_same_text() {
    let first = generator("c", &["util.c"], small_graph(), &["m"]).generate_makefile();
    let second = generator("c", &["util.c"], small_graph(), &["m"]).generate_makefile();
    assert_eq!(first, second);
}

#[test]
fn recipes_begin_with_a_tab() {
    let text = generator("c", &["util.c"], small_graph(), &["m"]).generate_makefile();
    for line in text.lines() {
        if line.contains("$(CC) ") || line.contains("rm -rf") || line.contains("@mkdir") {
            assert!(line.starts_with('\t'), "{:?}", line);
        }
    }
}
