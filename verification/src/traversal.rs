//! The traversal engine.
//!
//! Starting from each entrypoint, local file-inclusion directives are
//! followed recursively: each directive is resolved against the directory of
//! the file it was found in, normalized to its source-extension variant, and
//! visited; discovered source files are registered as dependencies of the
//! entrypoint. The engine itself performs no file reads: it keeps a stack of
//! pending visits, the caller reads each requested path and hands the text
//! (or the fact that the file does not exist) back in. A missing file is a
//! normal leaf, not an error.
//!
//! Cycle breaking relies on the file-name identity rule: a directive whose
//! resolved path carries a file name already recorded for the entrypoint is
//! not visited again. A cycle that only directory names distinguish is
//! therefore not guaranteed to terminate; that is a documented limitation of
//! the identity rule, not a target for silent correction.

use vstd::prelude::*;
use crate::strutil::{ends_c, ends_h, has_c_family_ext, ends_with_ext};
use crate::maker::{
    dir_part, file_part, with_c, with_h, directive_paths, scan_directives, views_of_strings,
    FilePath, replace_with_c, lemma_file_part_ext, lemma_concat_keeps_ext,
};
use crate::utilities::{
    graph_add, graph_has, graph_seed, deps_views, lemma_deps_of_all_empty,
    lemma_graph_add_appends, lemma_graph_seed_keeps_empty, DependencyGraph, Makefile,
    MakefileView, StrPath,
};

verus! {

/// One pending visit: the entrypoint the result is charged to, and the
/// candidate path to read.
pub struct Task {
    pub start: String,
    pub path: FilePath,
}

/// The mathematical content of a `Task`.
pub struct TaskView {
    pub start: Seq<char>,
    pub dir: Seq<char>,
    pub file: Seq<char>,
}

impl View for Task {
    type V = TaskView;

    open spec fn view(&self) -> TaskView {
        TaskView { start: self.start@, dir: self.path.dir_view(), file: self.path.file_view() }
    }
}

/// The views of a stack of tasks.
pub open spec fn tasks_views(v: Seq<Task>) -> Seq<TaskView> {
    v.map_values(|t: Task| t@)
}

/// The visits queued for one directive found inside a visited file: nothing
/// for a directive without a recognized extension, nothing when a dependency
/// of the same file name is already recorded, and otherwise the pair of the
/// source-extension and header-extension variants of the resolved path, the
/// source variant on top of the stack so that it is visited first.
pub open spec fn child_tasks(
    g: Seq<(Seq<char>, Seq<Seq<char>>)>,
    start: Seq<char>,
    cand_dir: Seq<char>,
    dpath: Seq<char>,
) -> Seq<TaskView> {
    if !has_c_family_ext(dpath) {
        Seq::<TaskView>::empty()
    } else {
        let norm = with_c(dpath);
        let d = cand_dir + dir_part(norm);
        let f = file_part(norm);
        if graph_has(g, start, d + f) {
            Seq::<TaskView>::empty()
        } else {
            seq![
                TaskView { start: start, dir: d, file: with_h(f) },
                TaskView { start: start, dir: d, file: f },
            ]
        }
    }
}

/// The diagnostic recorded for one directive: the offending composed path,
/// only when the directive lacks a recognized extension.
pub open spec fn child_diags(cand_dir: Seq<char>, dpath: Seq<char>) -> Seq<Seq<char>> {
    if has_c_family_ext(dpath) {
        Seq::<Seq<char>>::empty()
    } else {
        seq![cand_dir + dpath]
    }
}

/// The visits queued for all directives of a visited file, in order.
pub open spec fn visit_tasks(
    g: Seq<(Seq<char>, Seq<Seq<char>>)>,
    start: Seq<char>,
    cand_dir: Seq<char>,
    dpaths: Seq<Seq<char>>,
) -> Seq<TaskView>
    decreases dpaths.len(),
{
    if dpaths.len() == 0 {
        Seq::<TaskView>::empty()
    } else {
        visit_tasks(g, start, cand_dir, dpaths.drop_last()) + child_tasks(
            g,
            start,
            cand_dir,
            dpaths.last(),
        )
    }
}

/// The diagnostics recorded for all directives of a visited file, in order.
pub open spec fn visit_diags(cand_dir: Seq<char>, dpaths: Seq<Seq<char>>) -> Seq<Seq<char>>
    decreases dpaths.len(),
{
    if dpaths.len() == 0 {
        Seq::<Seq<char>>::empty()
    } else {
        visit_diags(cand_dir, dpaths.drop_last()) + child_diags(cand_dir, dpaths.last())
    }
}

/// The visits queued for one directive of an entrypoint itself: the resolved
/// source variant is always visited; a directive written with the header
/// extension additionally has the header variant visited afterwards.
pub open spec fn entry_tasks(start: Seq<char>, sdir: Seq<char>, dpath: Seq<char>) -> Seq<
    TaskView,
> {
    if !has_c_family_ext(dpath) {
        Seq::<TaskView>::empty()
    } else {
        let d = sdir + dir_part(dpath);
        let f = file_part(dpath);
        if ends_h(f) {
            seq![
                TaskView { start: start, dir: d, file: f },
                TaskView { start: start, dir: d, file: with_c(f) },
            ]
        } else {
            seq![TaskView { start: start, dir: d, file: with_c(f) }]
        }
    }
}

/// The visits queued for all directives of an entrypoint, in order.
pub open spec fn entry_tasks_all(start: Seq<char>, sdir: Seq<char>, dpaths: Seq<Seq<char>>) -> Seq<
    TaskView,
>
    decreases dpaths.len(),
{
    if dpaths.len() == 0 {
        Seq::<TaskView>::empty()
    } else {
        entry_tasks_all(start, sdir, dpaths.drop_last()) + entry_tasks(start, sdir, dpaths.last())
    }
}

/// The graph after the unconditional direct registrations of an entrypoint's
/// own directives: a directive written with the source extension has its
/// resolved path registered outright, whether or not the file exists.
pub open spec fn entry_adds(
    g: Seq<(Seq<char>, Seq<Seq<char>>)>,
    start: Seq<char>,
    sdir: Seq<char>,
    dpaths: Seq<Seq<char>>,
) -> Seq<(Seq<char>, Seq<Seq<char>>)>
    decreases dpaths.len(),
{
    if dpaths.len() == 0 {
        g
    } else {
        let g0 = entry_adds(g, start, sdir, dpaths.drop_last());
        let dp = dpaths.last();
        if has_c_family_ext(dp) && !ends_h(file_part(dp)) {
            graph_add(g0, start, with_c((sdir + dir_part(dp)) + file_part(dp)))
        } else {
            g0
        }
    }
}

/// The graph seeded with an empty entry for each path, in order.
pub open spec fn seed_all(paths: Seq<Seq<char>>) -> Seq<(Seq<char>, Seq<Seq<char>>)>
    decreases paths.len(),
{
    if paths.len() == 0 {
        Seq::<(Seq<char>, Seq<Seq<char>>)>::empty()
    } else {
        graph_seed(seed_all(paths.drop_last()), paths.last())
    }
}

/// The view of an optional file text.
pub open spec fn text_view(contents: Option<String>) -> Option<Seq<char>> {
    match contents {
        Option::None => Option::<Seq<char>>::None,
        Option::Some(t) => Option::Some(t@),
    }
}

/// The mathematical content of a `Traversal`.
pub struct TraversalView {
    pub makefile: MakefileView,
    pub pending: Seq<TaskView>,
    pub diagnostics: Seq<Seq<char>>,
}

/// What one visit does to the whole state: with no file text the top task is
/// simply dropped; with text, the candidate is registered when it is a
/// source file, and the visits and diagnostics for its directives are queued
/// against the graph as it stands after that registration.
pub open spec fn step_view(st: TraversalView, contents: Option<Seq<char>>) -> TraversalView {
    let t = st.pending.last();
    let rest = st.pending.drop_last();
    match contents {
        Option::None => TraversalView {
            makefile: st.makefile,
            pending: rest,
            diagnostics: st.diagnostics,
        },
        Option::Some(text) => {
            let g1 = if ends_c(t.file) {
                graph_add(st.makefile.dependencies, t.start, t.dir + t.file)
            } else {
                st.makefile.dependencies
            };
            TraversalView {
                makefile: MakefileView {
                    c_compiler: st.makefile.c_compiler,
                    c_flags: st.makefile.c_flags,
                    source_files: st.makefile.source_files,
                    dependencies: g1,
                },
                pending: rest + visit_tasks(g1, t.start, t.dir, directive_paths(text)),
                diagnostics: st.diagnostics + visit_diags(t.dir, directive_paths(text)),
            }
        },
    }
}

/// The traversal engine: the Makefile state being filled, the stack of
/// pending visits, and the diagnostics recorded so far.
pub struct Traversal {
    makefile: Makefile,
    pending: Vec<Task>,
    diagnostics: Vec<String>,
}

impl View for Traversal {
    type V = TraversalView;

    closed spec fn view(&self) -> TraversalView {
        TraversalView {
            makefile: self.makefile@,
            pending: tasks_views(self.pending@),
            diagnostics: views_of_strings(self.diagnostics@),
        }
    }
}

impl Traversal {
    /// A fresh engine: the graph is seeded with an empty entry per
    /// entrypoint, the compiler is `gcc` with an empty flag set, and no
    /// visit is pending.
    pub fn new(source_files: &Vec<String>) -> (r: Traversal)
        ensures
            r@.makefile.c_compiler == "gcc"@,
            r@.makefile.c_flags == Seq::<Seq<char>>::empty(),
            r@.makefile.source_files == views_of_strings(source_files@),
            r@.makefile.dependencies == seed_all(views_of_strings(source_files@)),
            r@.pending == Seq::<TaskView>::empty(),
            r@.diagnostics == Seq::<Seq<char>>::empty(),
    {
        let ghost pv = views_of_strings(source_files@);
        let mut graph = DependencyGraph::new();
        let mut sources: Vec<StrPath> = Vec::new();
        proof {
            assert(pv.take(0) =~= Seq::<Seq<char>>::empty());
            assert(deps_views(sources@) =~= Seq::<Seq<char>>::empty());
        }
        let mut i: usize = 0;
        while i < source_files.len()
            invariant
                0 <= i <= source_files@.len(),
                pv == views_of_strings(source_files@),
                graph@ == seed_all(pv.take(i as int)),
                deps_views(sources@) == pv.take(i as int),
            decreases source_files@.len() - i,
        {
            let p = &source_files[i];
            proof {
                assert(pv[i as int] == p@);
            }
            graph.seed(p.clone());
            sources.push(StrPath::new(p.clone()));
            proof {
                assert(pv.take(i as int + 1).drop_last() =~= pv.take(i as int));
                assert(pv.take(i as int + 1).last() == pv[i as int]);
                assert(deps_views(sources@) =~= pv.take(i as int + 1));
            }
            i = i + 1;
        }
        proof {
            assert(pv.take(source_files@.len() as int) =~= pv);
        }
        let flags: Vec<String> = Vec::new();
        proof {
            assert(flags@.map_values(|f: String| f@) =~= Seq::<Seq<char>>::empty());
        }
        let makefile = Makefile::new(String::from_str("gcc"), flags, sources, graph);
        let r = Traversal { makefile, pending: Vec::new(), diagnostics: Vec::new() };
        proof {
            assert(r@.pending =~= Seq::<TaskView>::empty());
            assert(r@.diagnostics =~= Seq::<Seq<char>>::empty());
        }
        r
    }

    /// Scans the entrypoint's own text: every local directive has its
    /// resolved source variant queued for a visit; a directive written as a
    /// header additionally has the header variant queued beneath it; one
    /// written as a source file is also registered as a direct dependency
    /// outright. Directives without a recognized extension are recorded as
    /// diagnostics and skipped.
    pub fn run_one_file(&mut self, start: &String, contents: &String)
        ensures
            final(self)@.makefile.c_compiler == old(self)@.makefile.c_compiler,
            final(self)@.makefile.c_flags == old(self)@.makefile.c_flags,
            final(self)@.makefile.source_files == old(self)@.makefile.source_files,
            final(self)@.makefile.dependencies == entry_adds(
                old(self)@.makefile.dependencies,
                start@,
                dir_part(start@),
                directive_paths(contents@),
            ),
            final(self)@.pending == old(self)@.pending + entry_tasks_all(
                start@,
                dir_part(start@),
                directive_paths(contents@),
            ),
            final(self)@.diagnostics == old(self)@.diagnostics + visit_diags(
                dir_part(start@),
                directive_paths(contents@),
            ),
    {
        let dpaths = scan_directives(contents.as_str());
        let start_header = FilePath::new(start.clone());
        let ghost sdir = dir_part(start@);
        let ghost dv = directive_paths(contents@);
        proof {
            assert(dv.take(0) =~= Seq::<Seq<char>>::empty());
            assert(old(self)@.pending + Seq::<TaskView>::empty() =~= old(self)@.pending);
            assert(old(self)@.diagnostics + Seq::<Seq<char>>::empty() =~= old(self)@.diagnostics);
        }
        let mut i: usize = 0;
        while i < dpaths.len()
            invariant
                0 <= i <= dpaths@.len(),
                views_of_strings(dpaths@) == dv,
                start_header.dir_view() == sdir,
                self@.makefile.c_compiler == old(self)@.makefile.c_compiler,
                self@.makefile.c_flags == old(self)@.makefile.c_flags,
                self@.makefile.source_files == old(self)@.makefile.source_files,
                self@.makefile.dependencies == entry_adds(
                    old(self)@.makefile.dependencies,
                    start@,
                    sdir,
                    dv.take(i as int),
                ),
                self@.pending == old(self)@.pending + entry_tasks_all(
                    start@,
                    sdir,
                    dv.take(i as int),
                ),
                self@.diagnostics == old(self)@.diagnostics + visit_diags(sdir, dv.take(i as int)),
            decreases dpaths@.len() - i,
        {
            let dp = &dpaths[i];
            proof {
                assert(dv[i as int] == dp@);
            }
            let is_c = ends_with_ext(dp.as_str(), 'c');
            let is_h_raw = ends_with_ext(dp.as_str(), 'h');
            let ghost pend_before = self@.pending;
            let ghost diag_before = self@.diagnostics;
            let ghost deps_before = self@.makefile.dependencies;
            if !(is_c || is_h_raw) {
                let mut d = start_header.dir_clone();
                d.append(dp.as_str());
                self.diagnostics.push(d);
                proof {
                    assert(self@.diagnostics =~= diag_before.push(sdir + dv[i as int]));
                }
            } else {
                proof {
                    lemma_file_part_ext(dp@);
                }
                let relative = FilePath::new(dp.clone());
                let header = start_header.compose_ref(relative);
                let is_h = ends_with_ext(header.file_ref().as_str(), 'h');
                let mut header_c = header.clone();
                header_c.file_to_c();
                if is_h {
                    self.pending.push(Task { start: start.clone(), path: header });
                    self.pending.push(Task { start: start.clone(), path: header_c });
                    proof {
                        assert(self@.pending =~= pend_before + entry_tasks(
                            start@,
                            sdir,
                            dv[i as int],
                        ));
                    }
                } else {
                    self.pending.push(Task { start: start.clone(), path: header_c });
                    proof {
                        assert(self@.pending =~= pend_before + entry_tasks(
                            start@,
                            sdir,
                            dv[i as int],
                        ));
                    }
                    let mut full_path = header.combined();
                    proof {
                        lemma_concat_keeps_ext(header.dir_view(), header.file_view());
                    }
                    replace_with_c(&mut full_path);
                    self.makefile.add_dependency(start, full_path);
                }
            }
            proof {
                assert(dv.take(i as int + 1).drop_last() =~= dv.take(i as int));
                assert(dv.take(i as int + 1).last() == dv[i as int]);
                if !(has_c_family_ext(dv[i as int])) {
                    assert(self@.pending =~= pend_before + Seq::<TaskView>::empty());
                    assert(self@.diagnostics =~= diag_before + seq![sdir + dv[i as int]]);
                } else {
                    assert(self@.diagnostics =~= diag_before + Seq::<Seq<char>>::empty());
                }
                assert(self@.pending =~= old(self)@.pending + entry_tasks_all(
                    start@,
                    sdir,
                    dv.take(i as int + 1),
                ));
                assert(self@.diagnostics =~= old(self)@.diagnostics + visit_diags(
                    sdir,
                    dv.take(i as int + 1),
                ));
            }
            i = i + 1;
        }
        proof {
            assert(dv.take(dpaths@.len() as int) =~= dv);
        }
    }

    /// The path the engine wants read next: the candidate of the visit on
    /// top of the stack, or nothing when the traversal is finished.
    pub fn next_request(&self) -> (r: Option<String>)
        ensures
            match r {
                Option::None => self@.pending.len() == 0,
                Option::Some(p) => self@.pending.len() > 0 && p@ == self@.pending.last().dir
                    + self@.pending.last().file,
            },
    {
        let n = self.pending.len();
        if n == 0 {
            None
        } else {
            Some(self.pending[n - 1].path.combined())
        }
    }

    /// Performs the visit on top of the stack, given what reading its
    /// candidate path yielded: the file's text, or `None` when the file does
    /// not exist (a normal leaf). A source-extension candidate that exists is
    /// registered as a dependency of its entrypoint; the file's own local
    /// directives are resolved against the candidate's directory and queued,
    /// unless a dependency of the same file name is already recorded; a
    /// directive without a recognized extension is recorded as a diagnostic
    /// and skipped. With nothing pending the call does nothing.
    pub fn traverse(&mut self, contents: Option<String>)
        ensures
            old(self)@.pending.len() == 0 ==> final(self)@ == old(self)@,
            old(self)@.pending.len() > 0 ==> final(self)@ == step_view(
                old(self)@,
                text_view(contents),
            ),
    {
        let popped = self.pending.pop();
        let t = match popped {
            Some(t) => t,
            None => {
                proof {
                    assert(self@ =~~= old(self)@);
                }
                return ;
            },
        };
        let ghost t_v = t@;
        let ghost rest = old(self)@.pending.drop_last();
        proof {
            assert(tasks_views(self.pending@) =~= rest);
        }
        let text = match contents {
            Some(text) => text,
            None => {
                return ;
            },
        };
        if ends_with_ext(t.path.file_ref().as_str(), 'c') {
            let full = t.path.combined();
            self.makefile.add_dependency(&t.start, full);
        }
        let ghost g1 = self@.makefile.dependencies;
        let dpaths = scan_directives(text.as_str());
        let ghost dv = directive_paths(text@);
        proof {
            assert(dv.take(0) =~= Seq::<Seq<char>>::empty());
            assert(rest + Seq::<TaskView>::empty() =~= rest);
            assert(old(self)@.diagnostics + Seq::<Seq<char>>::empty() =~= old(self)@.diagnostics);
        }
        let mut i: usize = 0;
        while i < dpaths.len()
            invariant
                0 <= i <= dpaths@.len(),
                views_of_strings(dpaths@) == dv,
                t.path.dir_view() == t_v.dir,
                t.start@ == t_v.start,
                self@.makefile.c_compiler == old(self)@.makefile.c_compiler,
                self@.makefile.c_flags == old(self)@.makefile.c_flags,
                self@.makefile.source_files == old(self)@.makefile.source_files,
                self@.makefile.dependencies == g1,
                self@.pending == rest + visit_tasks(g1, t_v.start, t_v.dir, dv.take(i as int)),
                self@.diagnostics == old(self)@.diagnostics + visit_diags(
                    t_v.dir,
                    dv.take(i as int),
                ),
            decreases dpaths@.len() - i,
        {
            let dp = &dpaths[i];
            proof {
                assert(dv[i as int] == dp@);
            }
            let is_c = ends_with_ext(dp.as_str(), 'c');
            let is_h_raw = ends_with_ext(dp.as_str(), 'h');
            let ghost pend_before = self@.pending;
            let ghost diag_before = self@.diagnostics;
            if !(is_c || is_h_raw) {
                let mut d = t.path.dir_clone();
                d.append(dp.as_str());
                self.diagnostics.push(d);
                proof {
                    assert(self@.diagnostics =~= diag_before.push(t_v.dir + dv[i as int]));
                }
            } else {
                let mut norm = dp.clone();
                replace_with_c(&mut norm);
                proof {
                    lemma_file_part_ext(with_c(dp@));
                }
                let relative = FilePath::new(norm);
                let further = t.path.compose_ref(relative);
                let full = further.combined();
                if !self.makefile.has_dependency(&t.start, &full) {
                    let mut further_header = further.clone();
                    further_header.file_to_header();
                    self.pending.push(Task { start: t.start.clone(), path: further_header });
                    self.pending.push(Task { start: t.start.clone(), path: further });
                    proof {
                        assert(self@.pending =~= pend_before + child_tasks(
                            g1,
                            t_v.start,
                            t_v.dir,
                            dv[i as int],
                        ));
                    }
                } else {
                    proof {
                        assert(self@.pending =~= pend_before + child_tasks(
                            g1,
                            t_v.start,
                            t_v.dir,
                            dv[i as int],
                        ));
                    }
                }
            }
            proof {
                assert(dv.take(i as int + 1).drop_last() =~= dv.take(i as int));
                assert(dv.take(i as int + 1).last() == dv[i as int]);
                if !(has_c_family_ext(dv[i as int])) {
                    assert(self@.pending =~= pend_before + Seq::<TaskView>::empty());
                    assert(self@.diagnostics =~= diag_before + seq![t_v.dir + dv[i as int]]);
                } else {
                    assert(self@.diagnostics =~= diag_before + Seq::<Seq<char>>::empty());
                }
                assert(self@.pending =~= rest + visit_tasks(
                    g1,
                    t_v.start,
                    t_v.dir,
                    dv.take(i as int + 1),
                ));
                assert(self@.diagnostics =~= old(self)@.diagnostics + visit_diags(
                    t_v.dir,
                    dv.take(i as int + 1),
                ));
            }
            i = i + 1;
        }
        proof {
            assert(dv.take(dpaths@.len() as int) =~= dv);
        }
    }

    /// Borrow of the diagnostics recorded so far.
    pub fn diagnostics_ref(&self) -> (r: &Vec<String>)
        ensures
            views_of_strings(r@) == self@.diagnostics,
    {
        &self.diagnostics
    }

    /// Hands the finished Makefile state over. Meaningful once nothing is
    /// pending; the stack is simply dropped.
    pub fn finish(self) -> (r: Makefile)
        ensures
            r@ == self@.makefile,
    {
        self.makefile
    }
}

/// A directive whose resolved path carries a file name already recorded as a
/// dependency of the same entrypoint queues no further visit: the second
/// encounter is skipped by the membership check, which is what breaks
/// self-referential cycles.
pub proof fn lemma_known_dependency_skipped(
    g: Seq<(Seq<char>, Seq<Seq<char>>)>,
    start: Seq<char>,
    cand_dir: Seq<char>,
    dpath: Seq<char>,
)
    requires
        graph_has(g, start, (cand_dir + dir_part(with_c(dpath))) + file_part(with_c(dpath))),
    ensures
        child_tasks(g, start, cand_dir, dpath) == Seq::<TaskView>::empty(),
{
}

/// Every entry of a freshly seeded graph has an empty dependency list.
pub proof fn lemma_seed_all_entries_empty(paths: Seq<Seq<char>>)
    ensures
        forall|i: int|
            0 <= i < seed_all(paths).len() ==> #[trigger] seed_all(paths)[i].1.len() == 0,
    decreases paths.len(),
{
    if paths.len() > 0 {
        lemma_seed_all_entries_empty(paths.drop_last());
        lemma_graph_seed_keeps_empty(seed_all(paths.drop_last()), paths.last());
    }
}

/// Given an entrypoint with no local directives, scanning it changes
/// nothing: no visit is queued, no diagnostic recorded, no registration
/// made, and its dependency set in the freshly seeded graph stays empty.
pub proof fn lemma_no_directives_no_deps(paths: Seq<Seq<char>>, start: Seq<char>, text: Seq<char>)
    requires
        directive_paths(text).len() == 0,
    ensures
        entry_tasks_all(start, dir_part(start), directive_paths(text)) == Seq::<TaskView>::empty(),
        visit_diags(dir_part(start), directive_paths(text)) == Seq::<Seq<char>>::empty(),
        entry_adds(seed_all(paths), start, dir_part(start), directive_paths(text)) == seed_all(
            paths,
        ),
        DependencyGraph::spec_deps_of(
            entry_adds(seed_all(paths), start, dir_part(start), directive_paths(text)),
            start,
        ).len() == 0,
{
    lemma_seed_all_entries_empty(paths);
    lemma_deps_of_all_empty(seed_all(paths), start);
}

/// One visit never removes anything from the graph: every entry key stays
/// where it is, and each dependency list before the visit is a prefix of the
/// same entry's list after it — the shared graph only accumulates until it
/// is frozen and handed to the synthesizer.
pub proof fn lemma_step_only_accumulates(st: TraversalView, contents: Option<Seq<char>>)
    requires
        st.pending.len() > 0,
    ensures
        step_view(st, contents).makefile.dependencies.len() == st.makefile.dependencies.len(),
        forall|k: int|
            0 <= k < st.makefile.dependencies.len() ==> #[trigger] step_view(
                st,
                contents,
            ).makefile.dependencies[k].0 == st.makefile.dependencies[k].0,
        forall|k: int|
            0 <= k < st.makefile.dependencies.len() ==> st.makefile.dependencies[
                k
            ].1.is_prefix_of(#[trigger] step_view(st, contents).makefile.dependencies[k].1),
{
    let g = st.makefile.dependencies;
    assert forall|k: int| 0 <= k < g.len() implies g[k].1.is_prefix_of(g[k].1) by {
        assert(g[k].1.take(g[k].1.len() as int) =~= g[k].1);
    }
    match contents {
        Option::None => {},
        Option::Some(_) => {
            let t = st.pending.last();
            if ends_c(t.file) {
                lemma_graph_add_appends(g, t.start, t.dir + t.file);
            }
        },
    }
}

} // verus!
