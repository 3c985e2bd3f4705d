use nofile::utilities::{DependencyGraph, Makefile, StrPath};

#[test]
fn identity_ignores_directory() {
    let a = StrPath::new(String::from("dir1/x.c"));
    let b = StrPath::new(String::from("dir2/deeper/x.c"));
    assert!(a == b);
}

#[test]
fn identity_distinguishes_file_names() {
    let a = StrPath::new(String::from("dir1/x.c"));
    let b = StrPath::new(String::from("dir1/y.c"));
    assert!(a != b);
}

#[test]
fn str_path_clone_and_into_round_trip() {
    let a = StrPath::new(String::from("p/q.c"));
    let c = a.clone();
    let s: String = c.into();
    assert_eq!(s, "p/q.c");
}

#[test]
fn graph_membership_uses_file_name_identity() {
    let mut g = DependencyGraph::new();
    g.seed(String::from("main.c"));
    g.add_dependency(&String::from("main.c"), String::from("lib/util.c"));
    let m = Makefile::new(String::from("gcc"), Vec::new(), Vec::new(), g);
    assert!(m.has_dependency(&String::from("main.c"), &String::from("lib/util.c")));
    assert!(m.has_dependency(&String::from("main.c"), &String::from("other/util.c")));
    assert!(!m.has_dependency(&String::from("main.c"), &String::from("lib/other.c")));
}

#[test]
fn add_dependency_deduplicates_by_file_name() {
    let mut g = DependencyGraph::new();
    g.seed(String::from("main.c"));
    g.add_dependency(&String::from("main.c"), String::from("a/u.c"));
    g.add_dependency(&String::from("main.c"), String::from("b/u.c"));
    let deps = g.deps_of(&String::from("main.c")).unwrap();
    assert_eq!(deps.len(), 1);
}

#[test]
fn add_dependency_to_unknown_source_is_ignored() {
    let mut g = DependencyGraph::new();
    g.seed(String::from("main.c"));
    g.add_dependency(&String::from("ghost.c"), String::from("u.c"));
    let m = Makefile::new(String::from("gcc"), Vec::new(), Vec::new(), g);
    assert!(!m.has_dependency(&String::from("ghost.c"), &String::from("u.c")));
    assert!(!m.has_dependency(&String::from("main.c"), &String::from("u.c")));
}

#[test]
fn source_identity_also_ignores_directory() {
    let mut g = DependencyGraph::new();
    g.seed(String::from("dir/main.c"));
    g.add_dependency(&String::from("elsewhere/main.c"), String::from("u.c"));
    let m = Makefile::new(String::from("gcc"), Vec::new(), Vec::new(), g);
    assert!(m.has_dependency(&String::from("dir/main.c"), &String::from("u.c")));
}

#[test]
fn ref_dependencies_for_lists_recorded_paths() {
    let mut g = DependencyGraph::new();
    g.seed(String::from("main.c"));
    g.add_dependency(&String::from("main.c"), String::from("one.c"));
    g.add_dependency(&String::from("main.c"), String::from("two.c"));
    let m = Makefile::new(String::from("gcc"), Vec::new(), Vec::new(), g);
    let deps = m.ref_dependencies_for(&String::from("main.c"));
    assert_eq!(deps.len(), 2);
    let first: String = deps[0].clone().into();
    let second: String = deps[1].clone().into();
    assert_eq!(first, "one.c");
    assert_eq!(second, "two.c");
}

#[test]
fn seeding_twice_resets_the_entry() {
    let mut g = DependencyGraph::new();
    g.seed(String::from("main.c"));
    g.add_dependency(&String::from("main.c"), String::from("u.c"));
    g.seed(String::from("main.c"));
    let deps = g.deps_of(&String::from("main.c")).unwrap();
    assert_eq!(deps.len(), 0);
}
