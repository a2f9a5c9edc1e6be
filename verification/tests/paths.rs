use makegen::path::{candidate_path, has_extension, is_hidden, strip_extesion, strip_root};

#[test]
fn extension_is_what_follows_the_last_dot() {
    assert!(has_extension("main.c", "c"));
    assert!(has_extension("src/net/socket.cpp", "cpp"));
    assert!(has_extension("archive.tar.gz", "gz"));
    assert!(!has_extension("archive.tar.gz", "tar"));
    assert!(!has_extension("main.c", "cpp"));
    assert!(!has_extension("main.cpp", "c"));
}

#[test]
fn extension_is_read_from_the_last_component_only() {
    assert!(!has_extension("dir.c/readme", "c"));
    assert!(has_extension("dir.d/file.c", "c"));
    assert!(!has_extension("dir.c/", "c"));
}

#[test]
fn names_without_extension_have_none() {
    assert!(!has_extension("Makefile", "c"));
    assert!(!has_extension("", ""));
    assert!(!has_extension(".c", "c"));
    assert!(!has_extension("src/.c", "c"));
    assert!(!has_extension("..", ""));
    assert!(!has_extension("a/..", ""));
    assert!(has_extension("file.", ""));
    assert!(has_extension(".hidden.c", "c"));
    assert!(has_extension("...", ""));
}

#[test]
fn hidden_names_begin_with_a_dot() {
    assert!(is_hidden(".git"));
    assert!(is_hidden("."));
    assert!(is_hidden(".OBJ"));
    assert!(!is_hidden("src"));
    assert!(!is_hidden("a.b"));
    assert!(!is_hidden(""));
}

#[test]
fn stem_ends_before_the_first_dot() {
    assert_eq!(strip_extesion("main.c"), "main");
    assert_eq!(strip_extesion("src/util.cpp"), "src/util");
    assert_eq!(strip_extesion("archive.tar.gz"), "archive");
    assert_eq!(strip_extesion("a.b/c.cpp"), "a");
    assert_eq!(strip_extesion("Makefile"), "Makefile");
    assert_eq!(strip_extesion(".profile"), "");
    assert_eq!(strip_extesion(""), "");
}

#[test]
fn paths_with_other_scripts_are_read_by_character() {
    assert!(has_extension("größe/día.c", "c"));
    assert_eq!(strip_extesion("größe/día.c"), "größe/día");
    assert!(has_extension("文件.cpp", "cpp"));
}

#[test]
fn include_is_looked_for_beside_the_including_file() {
    assert_eq!(candidate_path("/project", "main.c", "util.h"), "/project/util.h");
    assert_eq!(candidate_path("/project", "src/net/socket.c", "socket.h"), "/project/src/net/socket.h");
    assert_eq!(candidate_path("/project", "src/a.c", "../inc/a.h"), "/project/src/../inc/a.h");
    assert_eq!(candidate_path("/project", "src/a.c", ""), "/project/src/");
    assert_eq!(candidate_path("", "a.c", "b.h"), "/b.h");
}

#[test]
fn include_that_begins_at_the_top_is_taken_as_written() {
    assert_eq!(candidate_path("/project", "src/a.c", "/usr/include/x.h"), "/usr/include/x.h");
    assert_eq!(candidate_path("/project", "a.c", "/"), "/");
}

#[test]
fn path_under_the_root_is_seen_from_it() {
    assert_eq!(strip_root("/project", "/project/src/a.h"), Some("src/a.h".to_string()));
    assert_eq!(strip_root("/project", "/project/a.h"), Some("a.h".to_string()));
    assert_eq!(strip_root("/project", "/project"), Some(String::new()));
    assert_eq!(strip_root("/", "/a.h"), Some("a.h".to_string()));
    assert_eq!(strip_root("/project/", "/project/a.h"), Some("a.h".to_string()));
}

#[test]
fn path_beside_the_root_is_not_under_it() {
    assert_eq!(strip_root("/project", "/projects/a.h"), None);
    assert_eq!(strip_root("/project", "/other/a.h"), None);
    assert_eq!(strip_root("/project", "/proj"), None);
    assert_eq!(strip_root("/project", ""), None);
}
