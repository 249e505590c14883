use cpp_include_walker::DependencyForest;
use cpp_include_walker::SourceFile;
use cpp_include_walker::simple_graph::SimpleGraph;

fn file(path: &str, text: &str) -> SourceFile {
    SourceFile { path: String::from(path), text: String::from(text) }
}

#[test]
fn integration_test() {
    let mut forest: DependencyForest = Default::default();
    let files = vec![
        file("tests/test_data/simple/a.h", "#include <vector>\n"),
        file("tests/test_data/simple/b.h", "#include <vector>\n"),
        file("tests/test_data/simple/main.cpp", "#include \"a.h\"\n#include \"b.h\"\n"),
    ];
    forest.fill_from_directory("tests/test_data/simple", &files);
    let topo_sort = forest.include_order(true).unwrap();

    assert_eq!(forest.len(), 4);

    println!("{:?}", topo_sort);
    assert_eq!(topo_sort[0].uses.len(), 0);
    assert_eq!(topo_sort[0].used_by, ["a_hdr", "b_hdr"]);

    assert_eq!(forest.get_node("vector_hdr").unwrap().used_by, ["a_hdr", "b_hdr"]);
}

#[test]
#[should_panic]
fn topo_sort_with_circular_dependency() {
    let mut forest: DependencyForest = Default::default();
    let files = vec![
        file("tests/test_data/circular_dep/a.h", "#include \"b.h\"\n"),
        file("tests/test_data/circular_dep/b.h", "#include \"a.h\"\n"),
    ];
    forest.fill_from_directory("tests/test_data/circular_dep", &files);
    let _topo_sort = forest.get_topological_order().unwrap();
}

#[test]
fn cycle_yields_error_not_partial_result() {
    let mut forest: DependencyForest = Default::default();
    let files = vec![
        file("d/a.h", "#include \"b.h\"\n"),
        file("d/b.h", "#include \"a.h\"\n"),
    ];
    forest.fill_from_directory("d", &files);
    assert_eq!(forest.get_topological_order().unwrap_err(), "Circular dependency detected!");
    assert!(forest.include_order(true).is_err());
    assert!(forest.include_order(false).is_err());
}

#[test]
fn two_headers_share_one_target() {
    let mut forest: DependencyForest = Default::default();
    let files = vec![
        file("d/a.h", "#include <vector>\n"),
        file("d/b.h", "#include <vector>\n"),
    ];
    forest.fill_from_directory("d", &files);
    // the shared target becomes one node, referenced by both headers
    assert_eq!(forest.len(), 3);
    assert_eq!(forest.get_node("vector_hdr").unwrap().used_by, ["a_hdr", "b_hdr"]);

    let with_ext = forest.include_order(true).unwrap();
    assert_eq!(with_ext.len(), 3);
    assert_eq!(with_ext[0].key, "vector_hdr");
    assert_eq!(with_ext[0].uses.len(), 0);
    assert_eq!(with_ext[0].used_by, ["a_hdr", "b_hdr"]);

    // without external nodes, only the real files remain, each once
    let real_only = forest.include_order(false).unwrap();
    assert_eq!(real_only.len(), 2);
    assert!(real_only.iter().all(|n| n.path.is_some()));
    assert!(real_only.iter().any(|n| n.key == "a_hdr"));
    assert!(real_only.iter().any(|n| n.key == "b_hdr"));
}

#[test]
fn dependencies_precede_dependents() {
    let mut forest: DependencyForest = Default::default();
    let files = vec![
        file("d/low.h", ""),
        file("d/mid.h", "#include \"low.h\"\n"),
        file("d/top.cpp", "#include \"mid.h\"\n"),
    ];
    forest.fill_from_directory("d", &files);
    let order = forest.include_order(false).unwrap();
    let low = order.iter().position(|n| n.key == "low_hdr").unwrap();
    let mid = order.iter().position(|n| n.key == "mid_hdr").unwrap();
    let top = order.iter().position(|n| n.key == "top_src").unwrap();
    assert!(low < mid && mid < top);
}

#[test]
fn duplicate_directives_are_kept() {
    let mut forest: DependencyForest = Default::default();
    let files = vec![file("d/a.h", "#include <x>\n#include <x>\n")];
    forest.fill_from_directory("d", &files);
    // an include appearing twice yields a duplicate edge on both sides,
    // which the in-degree bookkeeping of the ordering has to absorb
    assert_eq!(forest.get_node("a_hdr").unwrap().uses, ["x_hdr", "x_hdr"]);
    assert_eq!(forest.get_node("x_hdr").unwrap().used_by, ["a_hdr", "a_hdr"]);
    let order = forest.include_order(true).unwrap();
    assert_eq!(order.len(), 2);
    assert_eq!(order[0].key, "x_hdr");
    assert_eq!(order[1].key, "a_hdr");
}

#[test]
fn files_are_filtered_by_extension() {
    let mut forest: DependencyForest = Default::default();
    let files = vec![
        file("d/notes.txt", "#include <vector>\n"),
        file("d/x.inl", "#include <vector>\n"),
        file("d/a.h", ""),
    ];
    forest.fill_from_directory("d", &files);
    // only a.h was ingested; the directives of the others never ran
    assert_eq!(forest.len(), 1);
    assert!(forest.get_node("a_hdr").is_some());
    assert!(forest.get_node("vector_hdr").is_none());
}

#[test]
fn extensionless_file_counts_as_header() {
    let mut forest: DependencyForest = Default::default();
    let files = vec![file("d/README", "#include <vector>\n")];
    forest.fill_from_directory("d", &files);
    assert_eq!(forest.len(), 2);
    let nd = forest.get_node("README_hdr").unwrap();
    assert_eq!(nd.path, Some(String::from("README")));
    assert_eq!(nd.uses, ["vector_hdr"]);
}

#[test]
fn unusable_paths_are_skipped_not_fatal() {
    let mut forest: DependencyForest = Default::default();
    let files = vec![
        // no usable stem: the whole file is skipped
        file("d/", "#include <vector>\n"),
        // one bad target among good ones: only that target is skipped
        file("d/a.h", "#include \".\"\n#include <set>\n"),
    ];
    forest.fill_from_directory("d", &files);
    assert_eq!(forest.len(), 2);
    assert_eq!(forest.get_node("a_hdr").unwrap().uses, ["set_hdr"]);
    assert!(forest.get_node("vector_hdr").is_none());
}

#[test]
fn paths_are_recorded_relative_to_the_directory() {
    let mut forest: DependencyForest = Default::default();
    let files = vec![
        file("tests/data/sub/a.h", "#include \"b.h\"\n"),
        file("tests/data/b.h", ""),
    ];
    forest.fill_from_directory("tests/data", &files);
    assert_eq!(forest.get_node("a_hdr").unwrap().path, Some(String::from("sub/a.h")));
    assert_eq!(forest.get_node("b_hdr").unwrap().path, Some(String::from("b.h")));
    // a target only ever seen in a directive has no path at all
    let mut forest2: DependencyForest = Default::default();
    forest2.fill_from_directory("d", &vec![file("d/a.h", "#include <vector>\n")]);
    assert_eq!(forest2.get_node("vector_hdr").unwrap().path, None);
}

#[test]
fn edges_are_reciprocal() {
    let mut forest: DependencyForest = Default::default();
    let files = vec![
        file("d/a.h", "#include <vector>\n"),
        file("d/b.h", "#include \"a.h\"\n"),
    ];
    forest.fill_from_directory("d", &files);
    let a = forest.get_node("a_hdr").unwrap();
    let b = forest.get_node("b_hdr").unwrap();
    let v = forest.get_node("vector_hdr").unwrap();
    // membership in `uses` and in the target's `used_by` goes together
    assert!(a.uses.contains(&String::from("vector_hdr")));
    assert!(v.used_by.contains(&String::from("a_hdr")));
    assert!(b.uses.contains(&String::from("a_hdr")));
    assert!(a.used_by.contains(&String::from("b_hdr")));
    assert!(!b.uses.contains(&String::from("vector_hdr")));
    assert!(!v.used_by.contains(&String::from("b_hdr")));
}

#[test]
fn index_lookup_matches_keys() {
    let mut forest: DependencyForest = Default::default();
    forest.fill_from_directory("d", &vec![file("d/a.h", "#include <vector>\n")]);
    let i = forest.index_of("a_hdr").unwrap();
    assert_eq!(forest.nodes[i].key, "a_hdr");
    assert!(forest.index_of("missing_hdr").is_none());
}
