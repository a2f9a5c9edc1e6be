use makegen::graph::DependencyMap;

fn strings(items: &[&str]) -> Vec<String> {
    items.iter().map(|s| s.to_string()).collect()
}

fn graph(entries: &[(&str, &[&str])]) -> DependencyMap {
    let mut map = DependencyMap::new();
    for (file, includes) in entries {
        assert!(map.insert(file.to_string(), strings(includes)));
    }
    map
}

#[test]
fn new_graph_is_empty() {
    let map = DependencyMap::new();
    assert_eq!(map.len(), 0);
    assert!(!map.contains_key(&"a.h".to_string()));
    assert_eq!(map.get(&"a.h".to_string()), None);
    assert_eq!(map.position(&"a.h".to_string()), None);
    assert!(map.closure_of(&"a.h".to_string()).is_empty());
}

#[test]
fn entries_keep_the_order_of_insertion() {
    let map = graph(&[("b.c", &["b.h"]), ("a.c", &[]), ("b.h", &["a.h", "c.h"])]);
    assert_eq!(map.len(), 3);
    assert_eq!(map.file(0), "b.c");
    assert_eq!(map.file(1), "a.c");
    assert_eq!(map.file(2), "b.h");
    assert_eq!(map.includes(2), &strings(&["a.h", "c.h"]));
    assert_eq!(map.position(&"a.c".to_string()), Some(1));
    assert!(map.contains_key(&"b.h".to_string()));
    assert_eq!(map.get(&"b.c".to_string()), Some(&strings(&["b.h"])));
}

#[test]
fn first_entry_of_a_file_stays() {
    let mut map = graph(&[("a.c", &["one.h"])]);
    assert!(!map.insert("a.c".to_string(), strings(&["two.h"])));
    assert_eq!(map.len(), 1);
    assert_eq!(map.get(&"a.c".to_string()), Some(&strings(&["one.h"])));
}

#[test]
fn closure_lists_file_then_includes_depth_first() {
    let map = graph(&[
        ("main.c", &["a.h", "b.h"]),
        ("a.h", &["c.h"]),
        ("b.h", &[]),
        ("c.h", &["d.h"]),
        ("d.h", &[]),
    ]);
    assert_eq!(
        map.closure_of(&"main.c".to_string()),
        strings(&["main.c", "a.h", "c.h", "d.h", "b.h"])
    );
    assert_eq!(map.closure_of(&"c.h".to_string()), strings(&["c.h", "d.h"]));
    assert_eq!(map.closure_of(&"d.h".to_string()), strings(&["d.h"]));
}

#[test]
fn closure_of_a_cycle_lists_each_file_once() {
    let map = graph(&[("a.h", &["b.h"]), ("b.h", &["a.h"])]);
    assert_eq!(map.closure_of(&"a.h".to_string()), strings(&["a.h", "b.h"]));
    assert_eq!(map.closure_of(&"b.h".to_string()), strings(&["b.h", "a.h"]));
}

#[test]
fn closure_of_a_self_include_lists_the_file_once() {
    let map = graph(&[("a.h", &["a.h", "a.h"])]);
    assert_eq!(map.closure_of(&"a.h".to_string()), strings(&["a.h"]));
}

#[test]
fn closure_of_a_diamond_lists_the_shared_file_once() {
    let map = graph(&[
        ("top.c", &["left.h", "right.h"]),
        ("left.h", &["base.h"]),
        ("right.h", &["base.h"]),
        ("base.h", &[]),
    ]);
    assert_eq!(
        map.closure_of(&"top.c".to_string()),
        strings(&["top.c", "left.h", "base.h", "right.h"])
    );
}

#[test]
fn closure_leaves_out_files_without_entry() {
    let map = graph(&[("a.c", &["ghost.h", "real.h"]), ("real.h", &["ghost.h"])]);
    assert_eq!(map.closure_of(&"a.c".to_string()), strings(&["a.c", "real.h"]));
    assert!(map.closure_of(&"ghost.h".to_string()).is_empty());
}

#[test]
fn closure_of_a_longer_cycle_reaches_all_of_it() {
    let map = graph(&[
        ("a.h", &["b.h"]),
        ("b.h", &["c.h"]),
        ("c.h", &["a.h", "d.h"]),
        ("d.h", &["b.h"]),
        ("e.h", &["a.h"]),
    ]);
    assert_eq!(map.closure_of(&"b.h".to_string()), strings(&["b.h", "c.h", "a.h", "d.h"]));
    assert_eq!(
        map.closure_of(&"e.h".to_string()),
        strings(&["e.h", "a.h", "b.h", "c.h", "d.h"])
    );
}

#[test]
fn closure_of_a_deep_chain_ends() {
    let mut map = DependencyMap::new();
    let count = 300;
    for i in 0..count {
        let next = if i + 1 < count { vec![format!("h{}.h", i + 1)] } else { vec!["h0.h".to_string()] };
        assert!(map.insert(format!("h{}.h", i), next));
    }
    let listed = map.closure_of(&"h0.h".to_string());
    assert_eq!(listed.len(), count);
    assert_eq!(listed[0], "h0.h");
    assert_eq!(listed[count - 1], format!("h{}.h", count - 1));
}
