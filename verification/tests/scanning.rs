use makegen::scan::{
    extract_included_filename_and_update_dlls, get_include_files_and_update_dlls, LibraryTable,
};

fn strings(items: &[&str]) -> Vec<String> {
    items.iter().map(|s| s.to_string()).collect()
}

#[test]
fn local_include_is_given_back_as_written() {
    let table = LibraryTable::standard();
    let mut dlls = Vec::new();
    let found = extract_included_filename_and_update_dlls("#include \"util.h\"", &table, &mut dlls);
    assert_eq!(found, Some("util.h".to_string()));
    assert!(dlls.is_empty());
    let found =
        extract_included_filename_and_update_dlls("#include \"../inc/a b.h\" // x", &table, &mut dlls);
    assert_eq!(found, Some("../inc/a b.h".to_string()));
}

#[test]
fn system_include_adds_its_library_and_gives_nothing() {
    let table = LibraryTable::standard();
    let mut dlls = Vec::new();
    assert_eq!(extract_included_filename_and_update_dlls("#include <math.h>", &table, &mut dlls), None);
    assert_eq!(dlls, strings(&["m"]));
    assert_eq!(extract_included_filename_and_update_dlls("#include <pthread.h>", &table, &mut dlls), None);
    assert_eq!(dlls, strings(&["m", "pthread"]));
    assert_eq!(extract_included_filename_and_update_dlls("#include <ncurses.h>", &table, &mut dlls), None);
    assert_eq!(dlls, strings(&["m", "pthread", "ncurses"]));
}

#[test]
fn library_is_never_added_twice() {
    let table = LibraryTable::standard();
    let mut dlls = strings(&["pthread", "m"]);
    assert_eq!(extract_included_filename_and_update_dlls("#include <math.h>", &table, &mut dlls), None);
    assert_eq!(dlls, strings(&["pthread", "m"]));
}

#[test]
fn unknown_system_header_is_free() {
    let table = LibraryTable::standard();
    let mut dlls = Vec::new();
    assert_eq!(extract_included_filename_and_update_dlls("#include <stdio.h>", &table, &mut dlls), None);
    assert_eq!(extract_included_filename_and_update_dlls("#include <sys/math.h>", &table, &mut dlls), None);
    assert_eq!(extract_included_filename_and_update_dlls("#include <>", &table, &mut dlls), None);
    assert!(dlls.is_empty());
}

#[test]
fn unbalanced_delimiters_yield_nothing() {
    let table = LibraryTable::standard();
    let mut dlls = Vec::new();
    for line in [
        "#include",
        "#include util.h",
        "#include \"util.h",
        "#include util.h\"",
        "#include <math.h",
        "#include math.h>",
        "#include >math.h<",
        "#include ><",
    ] {
        assert_eq!(extract_included_filename_and_update_dlls(line, &table, &mut dlls), None, "{}", line);
    }
    assert!(dlls.is_empty());
}

#[test]
fn angle_pair_wins_over_quotes() {
    let table = LibraryTable::standard();
    let mut dlls = Vec::new();
    let found =
        extract_included_filename_and_update_dlls("#include \"a.h\" // <math.h>", &table, &mut dlls);
    assert_eq!(found, None);
    assert_eq!(dlls, strings(&["m"]));
}

#[test]
fn closing_angle_is_sought_behind_the_opening_one() {
    let table = LibraryTable::standard();
    let mut dlls = Vec::new();
    let found = extract_included_filename_and_update_dlls("#include > <math.h>", &table, &mut dlls);
    assert_eq!(found, None);
    assert_eq!(dlls, strings(&["m"]));
    let found = extract_included_filename_and_update_dlls("#include > < \"x.h\"", &table, &mut dlls);
    assert_eq!(found, Some("x.h".to_string()));
}

#[test]
fn empty_local_target_is_a_target() {
    let table = LibraryTable::standard();
    let mut dlls = Vec::new();
    let found = extract_included_filename_and_update_dlls("#include \"\"", &table, &mut dlls);
    assert_eq!(found, Some(String::new()));
}

#[test]
fn injected_table_replaces_the_standard_one() {
    let mut table = LibraryTable::new();
    table.add("zlib.h".to_string(), "z".to_string());
    table.add("zlib.h".to_string(), "other".to_string());
    let mut dlls = Vec::new();
    assert_eq!(extract_included_filename_and_update_dlls("#include <zlib.h>", &table, &mut dlls), None);
    assert_eq!(extract_included_filename_and_update_dlls("#include <math.h>", &table, &mut dlls), None);
    assert_eq!(dlls, strings(&["z"]));
    assert_eq!(table.library_for(&"zlib.h".to_string()), Some(&"z".to_string()));
    assert_eq!(table.library_for(&"math.h".to_string()), None);
}

#[test]
fn source_is_scanned_line_by_line() {
    let table = LibraryTable::standard();
    let mut dlls = Vec::new();
    let source = "#include \"util.h\"\n#include <math.h>\nint main() { return 0; }\n#include \"b/c.h\"";
    let found = get_include_files_and_update_dlls(source.to_string(), &table, &mut dlls);
    assert_eq!(found, strings(&["util.h", "b/c.h"]));
    assert_eq!(dlls, strings(&["m"]));
}

#[test]
fn leading_spaces_are_skipped_but_not_tabs() {
    let table = LibraryTable::standard();
    let mut dlls = Vec::new();
    let source = "   #include \"spaced.h\"\n\t#include \"tabbed.h\"\n  \t#include <math.h>\n x #include \"late.h\"\n# include \"split.h\"\n//#include \"commented.h\"\n";
    let found = get_include_files_and_update_dlls(source.to_string(), &table, &mut dlls);
    assert_eq!(found, strings(&["spaced.h"]));
    assert!(dlls.is_empty());
}

#[test]
fn conditionals_are_not_evaluated() {
    let table = LibraryTable::standard();
    let mut dlls = Vec::new();
    let source = "#if 0\n#include \"never.h\"\n#include <pthread.h>\n#endif\n";
    let found = get_include_files_and_update_dlls(source.to_string(), &table, &mut dlls);
    assert_eq!(found, strings(&["never.h"]));
    assert_eq!(dlls, strings(&["pthread"]));
}

#[test]
fn carriage_returns_change_no_target() {
    let table = LibraryTable::standard();
    let mut dlls = Vec::new();
    let source = "#include \"a.h\"\r\n#include <math.h>\r\n\r\n#include \"b.h\"\r";
    let found = get_include_files_and_update_dlls(source.to_string(), &table, &mut dlls);
    assert_eq!(found, strings(&["a.h", "b.h"]));
    assert_eq!(dlls, strings(&["m"]));
}

#[test]
fn repeated_targets_are_all_reported_and_libraries_once() {
    let table = LibraryTable::standard();
    let mut dlls = strings(&["ncurses"]);
    let source = "#include \"a.h\"\n#include <math.h>\n#include \"a.h\"\n#include <math.h>\n#include <ncurses.h>\n";
    let found = get_include_files_and_update_dlls(source.to_string(), &table, &mut dlls);
    assert_eq!(found, strings(&["a.h", "a.h"]));
    assert_eq!(dlls, strings(&["ncurses", "m"]));
}

#[test]
fn empty_and_blank_sources_hold_nothing() {
    let table = LibraryTable::standard();
    let mut dlls = Vec::new();
    assert!(get_include_files_and_update_dlls(String::new(), &table, &mut dlls).is_empty());
    assert!(get_include_files_and_update_dlls("\n\n\n".to_string(), &table, &mut dlls).is_empty());
    assert!(dlls.is_empty());
}

#[test]
fn token_must_be_whole() {
    let table = LibraryTable::standard();
    let mut dlls = Vec::new();
    let source = "#includ \"a.h\"\n#INCLUDE \"b.h\"\n#include\"c.h\"\n#include_next \"d.h\"\n#inc";
    let found = get_include_files_and_update_dlls(source.to_string(), &table, &mut dlls);
    assert_eq!(found, strings(&["c.h", "d.h"]));
}
