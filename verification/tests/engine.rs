use nofile::traversal::Traversal;

fn dline(p: &str) -> String {
    "#inc".to_string() + "lude \"" + p + "\""
}

/// Drives the engine with an in-memory "disk": a list of (path, text)
/// pairs. Panics if the traversal does not settle within a fixed number of
/// visits, so a non-terminating run fails the test instead of hanging.
fn drive(tr: &mut Traversal, disk: &[(&str, String)]) {
    let mut steps = 0;
    while let Some(want) = tr.next_request() {
        steps += 1;
        assert!(steps < 100, "traversal did not settle");
        let found = disk.iter().find(|(p, _)| *p == want).map(|(_, t)| t.clone());
        tr.traverse(found);
    }
}

#[test]
fn entrypoint_without_directives_has_empty_set() {
    let sources = vec![String::from("a.c")];
    let mut tr = Traversal::new(&sources);
    tr.run_one_file(&sources[0], &String::from("int main() { return 0; }\n"));
    assert!(tr.next_request().is_none());
    let m = tr.finish();
    let deps = m.ref_dependencies_for(&sources[0]);
    assert!(deps.is_empty());
}

#[test]
fn header_directive_finds_source_variant_on_disk() {
    let sources = vec![String::from("a.c")];
    let mut tr = Traversal::new(&sources);
    tr.run_one_file(&sources[0], &format!("{}\n", dline("b.h")));
    let disk = [("b.c", String::new())];
    drive(&mut tr, &disk);
    let m = tr.finish();
    let deps = m.ref_dependencies_for(&sources[0]);
    assert_eq!(deps.len(), 1);
    assert!(m.has_dependency(&sources[0], &String::from("b.c")));
}

#[test]
fn nested_header_reaches_transitive_source() {
    let sources = vec![String::from("a.c")];
    let mut tr = Traversal::new(&sources);
    tr.run_one_file(&sources[0], &format!("{}\n", dline("b.h")));
    let disk = [
        ("b.h", format!("{}\n", dline("c.h"))),
        ("c.c", String::new()),
    ];
    drive(&mut tr, &disk);
    let m = tr.finish();
    assert!(!m.has_dependency(&sources[0], &String::from("b.c")));
    assert!(m.has_dependency(&sources[0], &String::from("c.c")));
    let deps = m.ref_dependencies_for(&sources[0]);
    assert_eq!(deps.len(), 1);
}

#[test]
fn self_referential_directive_terminates() {
    let sources = vec![String::from("a.c")];
    let mut tr = Traversal::new(&sources);
    tr.run_one_file(&sources[0], &format!("{}\n", dline("b.h")));
    let disk = [("b.c", format!("{}\n", dline("b.h")))];
    drive(&mut tr, &disk);
    let m = tr.finish();
    assert!(m.has_dependency(&sources[0], &String::from("b.c")));
    let deps = m.ref_dependencies_for(&sources[0]);
    assert_eq!(deps.len(), 1);
}

#[test]
fn source_variant_is_requested_before_header() {
    let sources = vec![String::from("a.c")];
    let mut tr = Traversal::new(&sources);
    tr.run_one_file(&sources[0], &format!("{}\n", dline("x.h")));
    assert_eq!(tr.next_request().unwrap(), "x.c");
    tr.traverse(None);
    assert_eq!(tr.next_request().unwrap(), "x.h");
    tr.traverse(None);
    assert!(tr.next_request().is_none());
}

#[test]
fn directive_written_as_source_is_registered_even_when_missing() {
    let sources = vec![String::from("a.c")];
    let mut tr = Traversal::new(&sources);
    tr.run_one_file(&sources[0], &format!("{}\n", dline("direct.c")));
    let disk: [(&str, String); 0] = [];
    drive(&mut tr, &disk);
    let m = tr.finish();
    assert!(m.has_dependency(&sources[0], &String::from("direct.c")));
}

#[test]
fn directives_resolve_against_the_directory_of_their_file() {
    let sources = vec![String::from("src/a.c")];
    let mut tr = Traversal::new(&sources);
    tr.run_one_file(&sources[0], &format!("{}\n", dline("sub/b.h")));
    assert_eq!(tr.next_request().unwrap(), "src/sub/b.c");
    let disk = [("src/sub/b.c", format!("{}\n", dline("deep.h")))];
    drive(&mut tr, &disk);
    let m = tr.finish();
    assert!(m.has_dependency(&sources[0], &String::from("src/sub/b.c")));
    assert!(!m.has_dependency(&sources[0], &String::from("src/sub/deep.c")));
}

#[test]
fn invalid_extension_is_reported_and_skipped() {
    let sources = vec![String::from("a.c")];
    let mut tr = Traversal::new(&sources);
    tr.run_one_file(
        &sources[0],
        &format!("{}\n{}\n", dline("notes.txt"), dline("ok.c")),
    );
    assert_eq!(tr.diagnostics_ref().len(), 1);
    assert_eq!(tr.diagnostics_ref()[0], "notes.txt");
    let disk: [(&str, String); 0] = [];
    drive(&mut tr, &disk);
    let m = tr.finish();
    assert!(m.has_dependency(&sources[0], &String::from("ok.c")));
}

#[test]
fn invalid_extension_inside_visited_file_keeps_traversal_going() {
    let sources = vec![String::from("a.c")];
    let mut tr = Traversal::new(&sources);
    tr.run_one_file(&sources[0], &format!("{}\n", dline("b.h")));
    let disk = [
        ("b.c", format!("{}\n{}\n", dline("bad.txt"), dline("good.h"))),
        ("good.c", String::new()),
    ];
    drive(&mut tr, &disk);
    assert_eq!(tr.diagnostics_ref().len(), 1);
    assert_eq!(tr.diagnostics_ref()[0], "bad.txt");
    let m = tr.finish();
    assert!(m.has_dependency(&sources[0], &String::from("b.c")));
    assert!(m.has_dependency(&sources[0], &String::from("good.c")));
}

#[test]
fn two_entrypoints_keep_separate_sets() {
    let sources = vec![String::from("one.c"), String::from("two.c")];
    let mut tr = Traversal::new(&sources);
    tr.run_one_file(&sources[0], &format!("{}\n", dline("u.h")));
    tr.run_one_file(&sources[1], &String::from("\n"));
    let disk = [("u.c", String::new())];
    drive(&mut tr, &disk);
    let m = tr.finish();
    assert!(m.has_dependency(&sources[0], &String::from("u.c")));
    assert!(!m.has_dependency(&sources[1], &String::from("u.c")));
}
