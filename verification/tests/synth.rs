use nofile::utilities::{DependencyGraph, ExecutableData, Makefile};

fn one_entry_makefile() -> Makefile {
    let mut g = DependencyGraph::new();
    g.seed(String::from("emulate.c"));
    g.add_dependency(&String::from("emulate.c"), String::from("util.c"));
    Makefile::new(String::from("gcc"), Vec::new(), Vec::new(), g)
}

#[test]
fn format_renders_fixed_section_order() {
    let expected = "CC = gcc\nCFLAGS = -Wall -g -pedantic -std=c99\n\n\
                    EMULATE_SOURCE = util.c \n\n\
                    .SUFFIXES: .c .o\n\n\
                    .PHONY: all clean\n\n\
                    all: emulate \n\n\
                    emulate: emulate.o\n\t$(CC) $(CFLAGS) emulate.c $(EMULATE_SOURCE) -o $@\n\n\
                    clean:\n\trm -f $(wildcard *.o)\n\trm -f emulate\n\trm -f emulate.o\n";
    assert_eq!(one_entry_makefile().format(), expected);
}

#[test]
fn format_is_deterministic() {
    let first = one_entry_makefile().format();
    let second = one_entry_makefile().format();
    assert_eq!(first, second);
}

#[test]
fn format_ignores_the_flag_set_field() {
    let mut g = DependencyGraph::new();
    g.seed(String::from("emulate.c"));
    g.add_dependency(&String::from("emulate.c"), String::from("util.c"));
    let with_flags = Makefile::new(
        String::from("gcc"),
        vec![String::from("-O2")],
        Vec::new(),
        g,
    );
    assert_eq!(with_flags.format(), one_entry_makefile().format());
}

#[test]
fn format_of_two_entries_keeps_insertion_order() {
    let mut g = DependencyGraph::new();
    g.seed(String::from("first.c"));
    g.seed(String::from("second.c"));
    g.add_dependency(&String::from("second.c"), String::from("dep.c"));
    let text = Makefile::new(String::from("gcc"), Vec::new(), Vec::new(), g).format();
    let first_var = text.find("FIRST_SOURCE = ").unwrap();
    let second_var = text.find("SECOND_SOURCE = dep.c ").unwrap();
    assert!(first_var < second_var);
    assert!(text.contains("all: first second \n"));
    assert!(text.contains("first: first.o\n"));
    assert!(text.contains("second: second.o\n"));
    assert!(text.contains("\trm -f first\n\trm -f first.o\n"));
    assert!(text.contains("\trm -f second\n\trm -f second.o\n"));
}

#[test]
fn label_comes_from_the_file_name_alone() {
    let mut g = DependencyGraph::new();
    g.seed(String::from("src/tool.c"));
    let text = Makefile::new(String::from("gcc"), Vec::new(), Vec::new(), g).format();
    assert!(text.contains("TOOL_SOURCE = \n"));
    assert!(text.contains("all: tool \n"));
    assert!(text.contains("tool: tool.o\n\t$(CC) $(CFLAGS) src/tool.c $(TOOL_SOURCE) -o $@\n"));
}

#[test]
fn executable_data_pieces_are_exact() {
    let data = ExecutableData::from(
        &String::from("emulate.c"),
        vec![String::from("a.c"), String::from("b.c")],
    );
    assert_eq!(data.source_file, "emulate.c");
    assert_eq!(data.exe_label, "emulate");
    assert_eq!(data.source, "EMULATE_SOURCE = a.c b.c ");
    assert_eq!(
        data.recipe,
        "emulate: emulate.o\n\t$(CC) $(CFLAGS) emulate.c $(EMULATE_SOURCE) -o $@"
    );
    assert_eq!(data.clean_statement, "\trm -f emulate");
    assert_eq!(data.clean_target, "\trm -f emulate.o");
}

#[test]
fn strip_ending_drops_two_characters() {
    let mut s = String::from("emulate.c");
    ExecutableData::strip_ending(&mut s);
    assert_eq!(s, "emulate");
}

#[test]
fn sources_valid_checks_every_entry() {
    let mut g = DependencyGraph::new();
    g.seed(String::from("good.c"));
    let ok = Makefile::new(String::from("gcc"), Vec::new(), Vec::new(), g);
    assert!(ok.sources_valid());

    let mut g2 = DependencyGraph::new();
    g2.seed(String::from("bad.txt"));
    let not_ok = Makefile::new(String::from("gcc"), Vec::new(), Vec::new(), g2);
    assert!(!not_ok.sources_valid());
}
