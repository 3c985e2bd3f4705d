//! Dependency identity and the dependency graph.
//!
//! `StrPath` wraps a raw path string but compares by its file-name component
//! alone: two paths denote the same dependency exactly when their file names
//! match, whatever their directories are. This collision-tolerant rule is
//! deliberate, user-visible behavior: same-named files in different
//! directories are indistinguishable in the graph.

use vstd::prelude::*;
use crate::maker::{file_part, lemma_components_of_combined, views_of_strings, FilePath};
use crate::strutil::{has_c_family_ext, to_upper_ascii, upper_seq};

verus! {

/// The identity rule of the graph: two raw paths denote the same dependency
/// exactly when their file-name components are equal.
pub open spec fn same_identity(a: Seq<char>, b: Seq<char>) -> bool {
    file_part(a) == file_part(b)
}

/// Tuple struct which contains the path which will be entered in the
/// dependency graph. This type is needed to compare identical files which
/// are accessed using different paths.
#[derive(Debug)]
pub struct StrPath(String);

impl View for StrPath {
    type V = Seq<char>;

    closed spec fn view(&self) -> Seq<char> {
        self.0@
    }
}

impl StrPath {
    pub fn new(path: String) -> (r: Self)
        ensures
            r@ == path@,
    {
        StrPath(path)
    }

    /// Consumes self and yields the raw path string.
    pub fn into(self) -> (r: String)
        ensures
            r@ == self@,
    {
        self.0
    }

    pub fn clone(&self) -> (r: StrPath)
        ensures
            r@ == self@,
    {
        StrPath::new(self.0.clone())
    }
}

impl PartialEq for StrPath {
    /// Equality by file name only: both sides are split as paths and just
    /// the file-name components are compared.
    fn eq(&self, other: &Self) -> (r: bool) {
        let this_filepath = FilePath::new(self.0.clone());
        let other_filepath = FilePath::new(other.0.clone());
        let res = this_filepath.file_clone() == other_filepath.file_clone();
        res
    }
}

impl vstd::std_specs::cmp::PartialEqSpecImpl for StrPath {
    open spec fn obeys_eq_spec() -> bool {
        true
    }

    open spec fn eq_spec(&self, other: &Self) -> bool {
        same_identity(self@, other@)
    }
}

/// The views of a list of dependencies.
pub open spec fn deps_views(v: Seq<StrPath>) -> Seq<Seq<char>> {
    v.map_values(|p: StrPath| p@)
}

/// One graph entry: an entrypoint key and the dependencies found for it.
pub open spec fn entry_views(e: (StrPath, Vec<StrPath>)) -> (Seq<char>, Seq<Seq<char>>) {
    (e.0@, deps_views(e.1@))
}

/// True when some dependency in `deps` has the same identity as `dep`.
pub open spec fn has_name(deps: Seq<Seq<char>>, dep: Seq<char>) -> bool {
    exists|i: int| 0 <= i < deps.len() && same_identity(deps[i], dep)
}

/// Seeding: an empty entry for `path` replaces the first entry of the same
/// identity, or is appended when there is none.
pub open spec fn graph_seed(
    g: Seq<(Seq<char>, Seq<Seq<char>>)>,
    path: Seq<char>,
) -> Seq<(Seq<char>, Seq<Seq<char>>)>
    decreases g.len(),
{
    if g.len() == 0 {
        seq![(path, Seq::<Seq<char>>::empty())]
    } else if same_identity(g[0].0, path) {
        seq![(path, Seq::<Seq<char>>::empty())] + g.drop_first()
    } else {
        seq![g[0]] + graph_seed(g.drop_first(), path)
    }
}

/// Adding a dependency: it is inserted into the first entry whose key has the
/// same identity as `source`, unless a dependency of the same identity is
/// already there; with no such entry the graph is unchanged.
pub open spec fn graph_add(
    g: Seq<(Seq<char>, Seq<Seq<char>>)>,
    source: Seq<char>,
    dep: Seq<char>,
) -> Seq<(Seq<char>, Seq<Seq<char>>)>
    decreases g.len(),
{
    if g.len() == 0 {
        g
    } else if same_identity(g[0].0, source) {
        if has_name(g[0].1, dep) {
            g
        } else {
            seq![(g[0].0, g[0].1.push(dep))] + g.drop_first()
        }
    } else {
        seq![g[0]] + graph_add(g.drop_first(), source, dep)
    }
}

/// Membership: whether the first entry keyed like `source` already holds a
/// dependency of the same identity as `dep`; false when there is no entry.
pub open spec fn graph_has(
    g: Seq<(Seq<char>, Seq<Seq<char>>)>,
    source: Seq<char>,
    dep: Seq<char>,
) -> bool
    decreases g.len(),
{
    if g.len() == 0 {
        false
    } else if same_identity(g[0].0, source) {
        has_name(g[0].1, dep)
    } else {
        graph_has(g.drop_first(), source, dep)
    }
}

/// Whether the graph holds an entry keyed like `source`.
pub open spec fn graph_has_key(
    g: Seq<(Seq<char>, Seq<Seq<char>>)>,
    source: Seq<char>,
) -> bool
    decreases g.len(),
{
    if g.len() == 0 {
        false
    } else if same_identity(g[0].0, source) {
        true
    } else {
        graph_has_key(g.drop_first(), source)
    }
}

/// Mapping from entrypoint identity to the set of dependencies discovered for
/// it. Entries keep their insertion order, so everything derived from the
/// graph is deterministic.
pub struct DependencyGraph {
    entries: Vec<(StrPath, Vec<StrPath>)>,
}

impl View for DependencyGraph {
    type V = Seq<(Seq<char>, Seq<Seq<char>>)>;

    closed spec fn view(&self) -> Seq<(Seq<char>, Seq<Seq<char>>)> {
        self.entries@.map_values(|e: (StrPath, Vec<StrPath>)| entry_views(e))
    }
}

proof fn lemma_graph_seed_skip(
    g: Seq<(Seq<char>, Seq<Seq<char>>)>,
    path: Seq<char>,
    i: int,
)
    requires
        0 <= i <= g.len(),
        forall|j: int| 0 <= j < i ==> !same_identity(g[j].0, path),
    ensures
        graph_seed(g, path) == g.take(i) + graph_seed(g.skip(i), path),
    decreases i,
{
    if i == 0 {
        assert(g.skip(0) =~= g);
        assert(g.take(0) + graph_seed(g.skip(0), path) =~= graph_seed(g, path));
    } else {
        lemma_graph_seed_skip(g, path, i - 1);
        assert(g.skip(i - 1).len() > 0);
        assert(g.skip(i - 1)[0] == g[i - 1]);
        assert(!same_identity(g.skip(i - 1)[0].0, path));
        assert(g.skip(i - 1).drop_first() =~= g.skip(i));
        assert(graph_seed(g.skip(i - 1), path) == seq![g[i - 1]] + graph_seed(g.skip(i), path));
        assert(g.take(i - 1) + (seq![g[i - 1]] + graph_seed(g.skip(i), path)) =~= g.take(i)
            + graph_seed(g.skip(i), path));
    }
}

proof fn lemma_graph_add_skip(
    g: Seq<(Seq<char>, Seq<Seq<char>>)>,
    source: Seq<char>,
    dep: Seq<char>,
    i: int,
)
    requires
        0 <= i <= g.len(),
        forall|j: int| 0 <= j < i ==> !same_identity(g[j].0, source),
    ensures
        graph_add(g, source, dep) == g.take(i) + graph_add(g.skip(i), source, dep),
    decreases i,
{
    if i == 0 {
        assert(g.skip(0) =~= g);
        assert(g.take(0) + graph_add(g.skip(0), source, dep) =~= graph_add(g, source, dep));
    } else {
        lemma_graph_add_skip(g, source, dep, i - 1);
        assert(g.skip(i - 1)[0] == g[i - 1]);
        assert(g.skip(i - 1).drop_first() =~= g.skip(i));
        assert(graph_add(g.skip(i - 1), source, dep) == seq![g[i - 1]] + graph_add(
            g.skip(i),
            source,
            dep,
        ));
        assert(g.take(i - 1) + (seq![g[i - 1]] + graph_add(g.skip(i), source, dep)) =~= g.take(i)
            + graph_add(g.skip(i), source, dep));
    }
}

proof fn lemma_graph_has_skip(
    g: Seq<(Seq<char>, Seq<Seq<char>>)>,
    source: Seq<char>,
    dep: Seq<char>,
    i: int,
)
    requires
        0 <= i <= g.len(),
        forall|j: int| 0 <= j < i ==> !same_identity(g[j].0, source),
    ensures
        graph_has(g, source, dep) == graph_has(g.skip(i), source, dep),
    decreases i,
{
    assert(g.skip(0) =~= g);
    if i > 0 {
        lemma_graph_has_skip(g, source, dep, i - 1);
        assert(g.skip(i - 1).len() > 0);
        assert(g.skip(i - 1)[0] == g[i - 1]);
        assert(!same_identity(g.skip(i - 1)[0].0, source));
        assert(g.skip(i - 1).drop_first() =~= g.skip(i));
    }
}

proof fn lemma_graph_has_key_skip(
    g: Seq<(Seq<char>, Seq<Seq<char>>)>,
    source: Seq<char>,
    i: int,
)
    requires
        0 <= i <= g.len(),
        forall|j: int| 0 <= j < i ==> !same_identity(g[j].0, source),
    ensures
        graph_has_key(g, source) == graph_has_key(g.skip(i), source),
    decreases i,
{
    assert(g.skip(0) =~= g);
    if i > 0 {
        lemma_graph_has_key_skip(g, source, i - 1);
        assert(g.skip(i - 1).len() > 0);
        assert(g.skip(i - 1)[0] == g[i - 1]);
        assert(!same_identity(g.skip(i - 1)[0].0, source));
        assert(g.skip(i - 1).drop_first() =~= g.skip(i));
    }
}

impl DependencyGraph {
    /// A graph with no entries.
    pub fn new() -> (r: Self)
        ensures
            r@ == Seq::<(Seq<char>, Seq<Seq<char>>)>::empty(),
    {
        let r = DependencyGraph { entries: Vec::new() };
        proof {
            assert(r@ =~= Seq::<(Seq<char>, Seq<Seq<char>>)>::empty());
        }
        r
    }

    /// First index whose key has the same identity as `key`, if any.
    fn find_key(&self, key: &StrPath) -> (r: Option<usize>)
        ensures
            match r {
                Some(i) => 0 <= i < self@.len() && same_identity(self@[i as int].0, key@)
                    && forall|j: int| 0 <= j < i ==> !same_identity(self@[j].0, key@),
                None => forall|j: int| 0 <= j < self@.len() ==> !same_identity(self@[j].0, key@),
            },
    {
        let n = self.entries.len();
        let mut i: usize = 0;
        while i < n
            invariant
                0 <= i <= n,
                n == self.entries.len(),
                forall|j: int| 0 <= j < i ==> !same_identity(self@[j].0, key@),
            decreases n - i,
        {
            let e = &self.entries[i];
            if e.0 == *key {
                return Some(i);
            }
            i = i + 1;
        }
        None
    }

    /// Seeds an empty entry for `path`, replacing an entry of the same
    /// identity if one is already there.
    pub fn seed(&mut self, path: String)
        ensures
            final(self)@ == graph_seed(old(self)@, path@),
    {
        let ghost pv = path@;
        let key = StrPath::new(path);
        let found = self.find_key(&key);
        match found {
            Some(i) => {
                self.entries.set(i, (key, Vec::new()));
                proof {
                    lemma_graph_seed_skip(old(self)@, pv, i as int);
                    assert(old(self)@.skip(i as int).len() > 0);
                    assert(old(self)@.skip(i as int)[0] == old(self)@[i as int]);
                    assert(same_identity(old(self)@.skip(i as int)[0].0, pv));
                    assert(old(self)@.skip(i as int).drop_first() =~= old(self)@.skip(
                        i as int + 1,
                    ));
                    assert(graph_seed(old(self)@.skip(i as int), pv) == seq![
                        (pv, Seq::<Seq<char>>::empty()),
                    ] + old(self)@.skip(i as int + 1));
                    assert(deps_views(Seq::<StrPath>::empty()) =~= Seq::<Seq<char>>::empty());
                    assert(self@ =~~= old(self)@.take(i as int) + (seq![
                        (pv, Seq::<Seq<char>>::empty()),
                    ] + old(self)@.skip(i as int + 1)));
                }
            },
            None => {
                let ghost n = self@.len() as int;
                self.entries.push((key, Vec::new()));
                proof {
                    lemma_graph_seed_skip(old(self)@, pv, n);
                    assert(old(self)@.skip(n) =~= Seq::<(Seq<char>, Seq<Seq<char>>)>::empty());
                    assert(graph_seed(old(self)@.skip(n), pv) == seq![
                        (pv, Seq::<Seq<char>>::empty()),
                    ]);
                    assert(deps_views(Seq::<StrPath>::empty()) =~= Seq::<Seq<char>>::empty());
                    assert(self@ =~~= old(self)@.take(n) + seq![(pv, Seq::<Seq<char>>::empty())]);
                }
            },
        }
    }

    /// Whether the entry keyed like `key` already holds a dependency of the
    /// same identity as `dep`.
    fn deps_contain(&self, i: usize, dep: &StrPath) -> (r: bool)
        requires
            i < self@.len(),
        ensures
            r == has_name(self@[i as int].1, dep@),
    {
        let m = self.entries[i].1.len();
        let mut k: usize = 0;
        let mut present = false;
        while k < m
            invariant
                0 <= k <= m,
                i < self.entries@.len(),
                m == self.entries@[i as int].1@.len(),
                !present ==> forall|j: int|
                    0 <= j < k ==> !same_identity(self@[i as int].1[j], dep@),
                present ==> has_name(self@[i as int].1, dep@),
            decreases m - k,
        {
            let e = &self.entries[i];
            if e.1[k] == *dep {
                present = true;
                proof {
                    assert(same_identity(self@[i as int].1[k as int], dep@));
                }
            }
            k = k + 1;
        }
        present
    }

    /// Adds `dependency` to the entry keyed like `source`, unless a
    /// dependency of the same identity is already recorded there; silently
    /// does nothing when no such entry exists.
    pub fn add_dependency(&mut self, source: &String, dependency: String)
        ensures
            final(self)@ == graph_add(old(self)@, source@, dependency@),
    {
        let ghost dv = dependency@;
        let src = StrPath::new(source.clone());
        let dep = StrPath::new(dependency);
        let ghost depg = dep;
        let found = self.find_key(&src);
        match found {
            Some(i) => {
                proof {
                    lemma_graph_add_skip(old(self)@, src@, dv, i as int);
                    assert(old(self)@.skip(i as int).len() > 0);
                    assert(old(self)@.skip(i as int)[0] == old(self)@[i as int]);
                    assert(same_identity(old(self)@.skip(i as int)[0].0, src@));
                    assert(old(self)@.skip(i as int).drop_first() =~= old(self)@.skip(
                        i as int + 1,
                    ));
                }
                let present = self.deps_contain(i, &dep);
                if !present {
                    let mut entry = self.entries.remove(i);
                    entry.1.push(dep);
                    self.entries.insert(i, entry);
                    proof {
                        assert(graph_add(old(self)@.skip(i as int), src@, dv) == seq![
                            (old(self)@[i as int].0, old(self)@[i as int].1.push(dv)),
                        ] + old(self)@.skip(i as int + 1));
                        assert(deps_views(old(self).entries@[i as int].1@.push(depg)) =~= old(
                            self,
                        )@[i as int].1.push(dv));
                        assert(self@ =~~= old(self)@.take(i as int) + (seq![
                            (old(self)@[i as int].0, old(self)@[i as int].1.push(dv)),
                        ] + old(self)@.skip(i as int + 1)));
                    }
                } else {
                    proof {
                        assert(graph_add(old(self)@.skip(i as int), src@, dv) == old(
                            self,
                        )@.skip(i as int));
                        assert(old(self)@.take(i as int) + old(self)@.skip(i as int) =~= old(
                            self,
                        )@);
                    }
                }
            },
            None => {
                proof {
                    lemma_graph_add_skip(old(self)@, src@, dv, self@.len() as int);
                    assert(old(self)@.skip(self@.len() as int) =~= Seq::<(
                        Seq<char>,
                        Seq<Seq<char>>,
                    )>::empty());
                    assert(old(self)@.take(self@.len() as int) + graph_add(
                        old(self)@.skip(self@.len() as int),
                        src@,
                        dv,
                    ) =~= old(self)@);
                }
            },
        }
    }

    /// Membership test under the file-name identity rule; false when the
    /// entrypoint is unknown.
    pub fn has_dependency(&self, source: &String, dependency: &String) -> (r: bool)
        ensures
            r == graph_has(self@, source@, dependency@),
    {
        let src = StrPath::new(source.clone());
        let dep = StrPath::new(dependency.clone());
        match self.find_key(&src) {
            Some(i) => {
                proof {
                    lemma_graph_has_skip(self@, src@, dep@, i as int);
                    assert(self@.skip(i as int)[0] == self@[i as int]);
                }
                self.deps_contain(i, &dep)
            },
            None => {
                proof {
                    lemma_graph_has_skip(self@, src@, dep@, self@.len() as int);
                }
                false
            },
        }
    }

    /// The dependency list of the first entry keyed like `source`; empty
    /// when the entrypoint is unknown.
    pub open spec fn spec_deps_of(
        g: Seq<(Seq<char>, Seq<Seq<char>>)>,
        source: Seq<char>,
    ) -> Seq<Seq<char>>
        decreases g.len(),
    {
        if g.len() == 0 {
            Seq::<Seq<char>>::empty()
        } else if same_identity(g[0].0, source) {
            g[0].1
        } else {
            Self::spec_deps_of(g.drop_first(), source)
        }
    }

    /// Borrow of the dependency list recorded for `source`, if any.
    pub fn deps_of(&self, source: &String) -> (r: Option<&Vec<StrPath>>)
        ensures
            match r {
                Some(d) => graph_has_key(self@, source@) && deps_views(d@) == Self::spec_deps_of(
                    self@,
                    source@,
                ),
                None => !graph_has_key(self@, source@),
            },
    {
        let src = StrPath::new(source.clone());
        match self.find_key(&src) {
            Some(i) => {
                proof {
                    lemma_deps_of_skip(self@, src@, i as int);
                    lemma_graph_has_key_skip(self@, src@, i as int);
                    assert(self@.skip(i as int)[0] == self@[i as int]);
                }
                Some(&self.entries[i].1)
            },
            None => {
                proof {
                    lemma_graph_has_key_skip(self@, src@, self@.len() as int);
                }
                None
            },
        }
    }

    /// Consumes the graph and yields its entries in insertion order.
    pub fn into_entries(self) -> (r: Vec<(StrPath, Vec<StrPath>)>)
        ensures
            r@.map_values(|e: (StrPath, Vec<StrPath>)| entry_views(e)) == self@,
    {
        self.entries
    }
}

proof fn lemma_deps_of_skip(g: Seq<(Seq<char>, Seq<Seq<char>>)>, source: Seq<char>, i: int)
    requires
        0 <= i <= g.len(),
        forall|j: int| 0 <= j < i ==> !same_identity(g[j].0, source),
    ensures
        DependencyGraph::spec_deps_of(g, source) == DependencyGraph::spec_deps_of(
            g.skip(i),
            source,
        ),
    decreases i,
{
    assert(g.skip(0) =~= g);
    if i > 0 {
        lemma_deps_of_skip(g, source, i - 1);
        assert(g.skip(i - 1).len() > 0);
        assert(g.skip(i - 1)[0] == g[i - 1]);
        assert(!same_identity(g.skip(i - 1)[0].0, source));
        assert(g.skip(i - 1).drop_first() =~= g.skip(i));
    }
}


/// The label of an executable: the entrypoint's file name with its
/// two-character extension stripped.
pub open spec fn label_of(key: Seq<char>) -> Seq<char> {
    file_part(key).take(file_part(key).len() - 2)
}

/// The name of the dependency-list variable of one executable.
pub open spec fn desc_of(key: Seq<char>) -> Seq<char> {
    upper_seq(label_of(key) + "_SOURCE"@)
}

/// The dependency paths joined with one space after each.
pub open spec fn joined_deps(deps: Seq<Seq<char>>) -> Seq<char>
    decreases deps.len(),
{
    if deps.len() == 0 {
        Seq::<char>::empty()
    } else {
        joined_deps(deps.drop_last()) + deps.last() + " "@
    }
}

/// The dependency-variable line of one executable.
pub open spec fn source_line_of(key: Seq<char>, deps: Seq<Seq<char>>) -> Seq<char> {
    desc_of(key) + " = "@ + joined_deps(deps)
}

/// The compile recipe of one executable.
pub open spec fn recipe_of(key: Seq<char>) -> Seq<char> {
    label_of(key) + ": "@ + label_of(key) + ".o\n\t$(CC) $(CFLAGS) "@ + key + " $("@ + desc_of(
        key,
    ) + ") -o $@"@
}

/// The clean rule removing one executable's binary.
pub open spec fn clean_statement_of(key: Seq<char>) -> Seq<char> {
    "\trm -f "@ + label_of(key)
}

/// The clean rule removing one executable's object file.
pub open spec fn clean_target_of(key: Seq<char>) -> Seq<char> {
    "\trm -f "@ + label_of(key) + ".o"@
}

/// The dependency-variable block: one line per entry, in entry order.
pub open spec fn sources_block(g: Seq<(Seq<char>, Seq<Seq<char>>)>) -> Seq<char>
    decreases g.len(),
{
    if g.len() == 0 {
        Seq::<char>::empty()
    } else {
        sources_block(g.drop_last()) + source_line_of(g.last().0, g.last().1) + "\n"@
    }
}

/// All labels joined with one space after each.
pub open spec fn labels_joined(g: Seq<(Seq<char>, Seq<Seq<char>>)>) -> Seq<char>
    decreases g.len(),
{
    if g.len() == 0 {
        Seq::<char>::empty()
    } else {
        labels_joined(g.drop_last()) + label_of(g.last().0) + " "@
    }
}

/// The recipe block: one recipe per entry followed by a blank line.
pub open spec fn recipes_block(g: Seq<(Seq<char>, Seq<Seq<char>>)>) -> Seq<char>
    decreases g.len(),
{
    if g.len() == 0 {
        Seq::<char>::empty()
    } else {
        recipes_block(g.drop_last()) + recipe_of(g.last().0) + "\n\n"@
    }
}

/// The per-entry clean lines: binary then object file, one line each.
pub open spec fn clean_lines(g: Seq<(Seq<char>, Seq<Seq<char>>)>) -> Seq<char>
    decreases g.len(),
{
    if g.len() == 0 {
        Seq::<char>::empty()
    } else {
        clean_lines(g.drop_last()) + clean_statement_of(g.last().0) + "\n"@ + clean_target_of(
            g.last().0,
        ) + "\n"@
    }
}

/// The whole rendered Makefile text, section by section in fixed order:
/// compiler variable, flags variable, dependency-variable block, suffix
/// declaration, phony declaration, the `all` target, every compile recipe,
/// and the clean target. Only the compiler name and the graph influence the
/// text; the flag set of the state is not consulted (the flags line is
/// fixed), so synthesis is deterministic in the graph alone.
pub open spec fn format_view(m: MakefileView) -> Seq<char> {
    "CC = "@ + m.c_compiler + "\n"@ + "CFLAGS = -Wall -g -pedantic -std=c99"@ + "\n\n"@
        + sources_block(m.dependencies) + "\n"@ + ".SUFFIXES: .c .o"@ + "\n\n"@
        + ".PHONY: all clean"@ + "\n\n"@ + "all: "@ + labels_joined(m.dependencies) + "\n\n"@
        + recipes_block(m.dependencies) + "clean:\n"@ + "\trm -f $(wildcard *.o)"@ + "\n"@
        + clean_lines(m.dependencies)
}

/// Synthesis is deterministic: two Makefile states that agree on the
/// compiler name and on the finished graph render byte-identical text,
/// whatever else (flag set, source list) differs between them.
pub proof fn lemma_format_deterministic(m1: MakefileView, m2: MakefileView)
    requires
        m1.c_compiler == m2.c_compiler,
        m1.dependencies == m2.dependencies,
    ensures
        format_view(m1) == format_view(m2),
{
}

/// The text pieces of one executable's Makefile entries: its source path,
/// dependency-variable line, label, compile recipe, and the two clean rules.
pub struct ExecutableData {
    pub source_file: String,
    pub source: String,
    pub exe_label: String,
    pub recipe: String,
    pub clean_statement: String,
    pub clean_target: String,
}

/// The pieces of `d` are the ones rendered for an entry (`key`, `deps`).
pub open spec fn data_matches(d: ExecutableData, key: Seq<char>, deps: Seq<Seq<char>>) -> bool {
    d.source_file@ == key && d.source@ == source_line_of(key, deps) && d.exe_label@ == label_of(
        key,
    ) && d.recipe@ == recipe_of(key) && d.clean_statement@ == clean_statement_of(key)
        && d.clean_target@ == clean_target_of(key)
}

impl ExecutableData {
    /// Strips the two-character extension from a file name.
    pub fn strip_ending(file: &mut String)
        requires
            old(file)@.len() >= 2,
        ensures
            final(file)@ == old(file)@.take(old(file)@.len() - 2),
    {
        let n = file.as_str().unicode_len();
        let r = String::from_str(file.as_str().substring_char(0, n - 2));
        *file = r;
    }

    /// Constructs the Makefile data for the given executable file from its
    /// path and its dependency list. The label is the file name of the path
    /// with its extension stripped; the dependency-variable name is the
    /// ASCII upper-casing of the label followed by `_SOURCE`.
    pub fn from(source_file: &String, sources: Vec<String>) -> (r: ExecutableData)
        requires
            has_c_family_ext(file_part(source_file@)),
        ensures
            data_matches(r, source_file@, views_of_strings(sources@)),
    {
        let fp = FilePath::new(source_file.clone());
        let mut exe_label = fp.file_clone();
        ExecutableData::strip_ending(&mut exe_label);
        let mut desc_base = exe_label.clone();
        desc_base.append("_SOURCE");
        let dependencies_descriptor = to_upper_ascii(desc_base.as_str());

        let mut recipe = exe_label.clone();
        recipe.append(": ");
        recipe.append(exe_label.as_str());
        recipe.append(".o\n\t$(CC) $(CFLAGS) ");
        recipe.append(source_file.as_str());
        recipe.append(" $(");
        recipe.append(dependencies_descriptor.as_str());
        recipe.append(") -o $@");

        let mut clean_statement = String::from_str("\trm -f ");
        clean_statement.append(exe_label.as_str());
        let mut clean_target = String::from_str("\trm -f ");
        clean_target.append(exe_label.as_str());
        clean_target.append(".o");

        let mut source = dependencies_descriptor.clone();
        source.append(" = ");
        let ghost sv = views_of_strings(sources@);
        proof {
            assert(sv.take(0) =~= Seq::<Seq<char>>::empty());
            assert(source@ + Seq::<char>::empty() =~= source@);
        }
        let ghost source_prefix = source@;
        let mut i: usize = 0;
        while i < sources.len()
            invariant
                0 <= i <= sources@.len(),
                sv == views_of_strings(sources@),
                source@ == source_prefix + joined_deps(sv.take(i as int)),
            decreases sources@.len() - i,
        {
            proof {
                assert(sv[i as int] == sources@[i as int]@);
            }
            source.append(sources[i].as_str());
            source.append(" ");
            proof {
                assert(sv.take(i as int + 1).drop_last() =~= sv.take(i as int));
                assert(sv.take(i as int + 1).last() == sv[i as int]);
                assert(source@ =~= source_prefix + joined_deps(sv.take(i as int + 1)));
            }
            i = i + 1;
        }
        proof {
            assert(sv.take(sources@.len() as int) =~= sv);
        }

        ExecutableData {
            source_file: source_file.clone(),
            source,
            exe_label,
            recipe,
            clean_statement,
            clean_target,
        }
    }
}

/// Seeding preserves the shape of a graph whose dependency lists are all
/// empty: every entry of the seeded graph still has an empty list.
pub proof fn lemma_graph_seed_keeps_empty(g: Seq<(Seq<char>, Seq<Seq<char>>)>, p: Seq<char>)
    requires
        forall|i: int| 0 <= i < g.len() ==> g[i].1.len() == 0,
    ensures
        forall|i: int|
            0 <= i < graph_seed(g, p).len() ==> #[trigger] graph_seed(g, p)[i].1.len() == 0,
    decreases g.len(),
{
    if g.len() == 0 {
    } else if same_identity(g[0].0, p) {
        assert forall|i: int|
            0 <= i < graph_seed(g, p).len() implies #[trigger] graph_seed(g, p)[i].1.len()
            == 0 by {
            if i > 0 {
                assert(graph_seed(g, p)[i] == g.drop_first()[i - 1]);
                assert(g.drop_first()[i - 1] == g[i]);
            }
        }
    } else {
        assert(forall|i: int| 0 <= i < g.drop_first().len() ==> g.drop_first()[i].1.len() == 0);
        lemma_graph_seed_keeps_empty(g.drop_first(), p);
        assert forall|i: int|
            0 <= i < graph_seed(g, p).len() implies #[trigger] graph_seed(g, p)[i].1.len()
            == 0 by {
            if i > 0 {
                assert(graph_seed(g, p)[i] == graph_seed(g.drop_first(), p)[i - 1]);
            }
        }
    }
}

/// A graph whose dependency lists are all empty yields an empty list for
/// any source.
pub proof fn lemma_deps_of_all_empty(g: Seq<(Seq<char>, Seq<Seq<char>>)>, source: Seq<char>)
    requires
        forall|i: int| 0 <= i < g.len() ==> g[i].1.len() == 0,
    ensures
        DependencyGraph::spec_deps_of(g, source).len() == 0,
    decreases g.len(),
{
    if g.len() > 0 && !same_identity(g[0].0, source) {
        assert(forall|i: int| 0 <= i < g.drop_first().len() ==> g.drop_first()[i].1.len() == 0);
        lemma_deps_of_all_empty(g.drop_first(), source);
    }
}

/// Filename-only identity, stated for the graph's own identity relation:
/// combined paths built from any directories and slash-free file names are
/// identified by the file name alone — `d1 + f1` and `d2 + f1` are the same
/// dependency whatever `d1` and `d2` are, while `d1 + f1` and `d1 + f2`
/// differ whenever `f1 != f2`.
pub proof fn lemma_identity_ignores_directory(
    d1: Seq<char>,
    d2: Seq<char>,
    f1: Seq<char>,
    f2: Seq<char>,
)
    requires
        d1.len() == 0 || d1[d1.len() - 1] == '/',
        d2.len() == 0 || d2[d2.len() - 1] == '/',
        forall|i: int| 0 <= i < f1.len() ==> f1[i] != '/',
        forall|i: int| 0 <= i < f2.len() ==> f2[i] != '/',
    ensures
        same_identity(d1 + f1, d2 + f1),
        f1 != f2 ==> !same_identity(d1 + f1, d1 + f2),
{
    lemma_components_of_combined(d1, f1);
    lemma_components_of_combined(d2, f1);
    lemma_components_of_combined(d1, f2);
}

/// Pairwise-distinct identities in one dependency list.
pub open spec fn deps_distinct(d: Seq<Seq<char>>) -> bool {
    forall|i: int, j: int| 0 <= i < j < d.len() ==> !same_identity(d[i], d[j])
}

/// Every dependency list of the graph is a set under the identity rule.
pub open spec fn graph_distinct(g: Seq<(Seq<char>, Seq<Seq<char>>)>) -> bool {
    forall|k: int| 0 <= k < g.len() ==> deps_distinct(#[trigger] g[k].1)
}

/// Adding a dependency keeps every list duplicate-free: the membership test
/// guards the insertion, so the lists are sets under the identity rule.
pub proof fn lemma_graph_add_keeps_distinct(
    g: Seq<(Seq<char>, Seq<Seq<char>>)>,
    source: Seq<char>,
    dep: Seq<char>,
)
    requires
        graph_distinct(g),
    ensures
        graph_distinct(graph_add(g, source, dep)),
    decreases g.len(),
{
    if g.len() == 0 {
    } else if same_identity(g[0].0, source) {
        if !has_name(g[0].1, dep) {
            let nd = g[0].1.push(dep);
            let r = graph_add(g, source, dep);
            assert(deps_distinct(g[0].1));
            assert forall|i: int, j: int| 0 <= i < j < nd.len() implies !same_identity(
                nd[i],
                nd[j],
            ) by {
                if j == nd.len() - 1 {
                    assert(nd[i] == g[0].1[i]);
                    assert(!same_identity(g[0].1[i], dep));
                } else {
                    assert(nd[i] == g[0].1[i]);
                    assert(nd[j] == g[0].1[j]);
                }
            }
            assert forall|k: int| 0 <= k < r.len() implies deps_distinct(#[trigger] r[k].1) by {
                if k == 0 {
                    assert(r[0].1 == nd);
                } else {
                    assert(r[k] == g.drop_first()[k - 1]);
                    assert(g.drop_first()[k - 1] == g[k]);
                }
            }
        }
    } else {
        assert(forall|k: int|
            0 <= k < g.drop_first().len() ==> deps_distinct(#[trigger] g.drop_first()[k].1));
        lemma_graph_add_keeps_distinct(g.drop_first(), source, dep);
        let r = graph_add(g, source, dep);
        assert forall|k: int| 0 <= k < r.len() implies deps_distinct(#[trigger] r[k].1) by {
            if k > 0 {
                assert(r[k] == graph_add(g.drop_first(), source, dep)[k - 1]);
            } else {
                assert(r[0].1 == g[0].1);
            }
        }
    }
}

/// Seeding keeps every list duplicate-free: the entry it writes is empty.
pub proof fn lemma_graph_seed_keeps_distinct(g: Seq<(Seq<char>, Seq<Seq<char>>)>, p: Seq<char>)
    requires
        graph_distinct(g),
    ensures
        graph_distinct(graph_seed(g, p)),
    decreases g.len(),
{
    if g.len() == 0 {
    } else if same_identity(g[0].0, p) {
        let r = graph_seed(g, p);
        assert forall|k: int| 0 <= k < r.len() implies deps_distinct(#[trigger] r[k].1) by {
            if k > 0 {
                assert(r[k] == g.drop_first()[k - 1]);
                assert(g.drop_first()[k - 1] == g[k]);
            }
        }
    } else {
        assert(forall|k: int|
            0 <= k < g.drop_first().len() ==> deps_distinct(#[trigger] g.drop_first()[k].1));
        lemma_graph_seed_keeps_distinct(g.drop_first(), p);
        let r = graph_seed(g, p);
        assert forall|k: int| 0 <= k < r.len() implies deps_distinct(#[trigger] r[k].1) by {
            if k > 0 {
                assert(r[k] == graph_seed(g.drop_first(), p)[k - 1]);
            } else {
                assert(r[0].1 == g[0].1);
            }
        }
    }
}

/// Traversal only ever accumulates: adding a dependency keeps every entry
/// key in place, and every existing dependency list is a prefix of the new
/// one — nothing is removed or reordered, at most one path is appended to
/// one list.
pub proof fn lemma_graph_add_appends(
    g: Seq<(Seq<char>, Seq<Seq<char>>)>,
    source: Seq<char>,
    dep: Seq<char>,
)
    ensures
        graph_add(g, source, dep).len() == g.len(),
        forall|k: int| 0 <= k < g.len() ==> #[trigger] graph_add(g, source, dep)[k].0 == g[k].0,
        forall|k: int|
            0 <= k < g.len() ==> g[k].1.is_prefix_of(#[trigger] graph_add(g, source, dep)[k].1),
    decreases g.len(),
{
    let r = graph_add(g, source, dep);
    if g.len() == 0 {
    } else if same_identity(g[0].0, source) {
        if has_name(g[0].1, dep) {
            assert(forall|k: int| 0 <= k < g.len() ==> g[k].1.is_prefix_of(#[trigger] r[k].1));
        } else {
            assert(g[0].1.take(g[0].1.len() as int) =~= g[0].1);
            assert(g[0].1.is_prefix_of(g[0].1.push(dep)));
            assert forall|k: int| 0 <= k < g.len() implies g[k].1.is_prefix_of(
                #[trigger] r[k].1,
            ) by {
                if k > 0 {
                    assert(r[k] == g.drop_first()[k - 1]);
                    assert(g.drop_first()[k - 1] == g[k]);
                    assert(g[k].1.take(g[k].1.len() as int) =~= g[k].1);
                }
            }
        }
    } else {
        lemma_graph_add_appends(g.drop_first(), source, dep);
        assert forall|k: int| 0 <= k < g.len() implies #[trigger] r[k].0 == g[k].0 && g[
            k
        ].1.is_prefix_of(r[k].1) by {
            if k == 0 {
                assert(r[0] == g[0]);
                assert(g[0].1.take(g[0].1.len() as int) =~= g[0].1);
            } else {
                assert(r[k] == graph_add(g.drop_first(), source, dep)[k - 1]);
                assert(g.drop_first()[k - 1] == g[k]);
            }
        }
    }
}

/// The mathematical content of a `Makefile` value.
pub struct MakefileView {
    pub c_compiler: Seq<char>,
    pub c_flags: Seq<Seq<char>>,
    pub source_files: Seq<Seq<char>>,
    pub dependencies: Seq<(Seq<char>, Seq<Seq<char>>)>,
}

/// The fields of a Makefile: the compiler, its flag set, the entrypoint
/// source files, and the dependency graph being filled for them.
pub struct Makefile {
    c_compiler: String,
    c_flags: Vec<String>,
    source_files: Vec<StrPath>,
    dependencies: DependencyGraph,
}

impl View for Makefile {
    type V = MakefileView;

    closed spec fn view(&self) -> MakefileView {
        MakefileView {
            c_compiler: self.c_compiler@,
            c_flags: self.c_flags@.map_values(|f: String| f@),
            source_files: deps_views(self.source_files@),
            dependencies: self.dependencies@,
        }
    }
}

impl Makefile {
    pub fn new(
        c_compiler: String,
        c_flags: Vec<String>,
        source_files: Vec<StrPath>,
        dependencies: DependencyGraph,
    ) -> (r: Self)
        ensures
            r@.c_compiler == c_compiler@,
            r@.c_flags == c_flags@.map_values(|f: String| f@),
            r@.source_files == deps_views(source_files@),
            r@.dependencies == dependencies@,
    {
        Makefile { c_compiler, c_flags, source_files, dependencies }
    }

    /// Borrow of the dependency list recorded for `source`. Asking for an
    /// entrypoint that was never seeded is a broken pipeline invariant.
    pub fn ref_dependencies_for(&self, source: &String) -> (r: &Vec<StrPath>)
        requires
            graph_has_key(self@.dependencies, source@),
        ensures
            deps_views(r@) == DependencyGraph::spec_deps_of(self@.dependencies, source@),
    {
        let d = self.dependencies.deps_of(source);
        match d {
            Some(deps) => deps,
            None => {
                proof {
                    assert(false);
                }
                &self.source_files
            },
        }
    }

    /// Adds the given dependency to the dependencies of `source`, if a
    /// dependency of the same identity is not already inside; does nothing
    /// when `source` is unknown.
    pub fn add_dependency(&mut self, source: &String, dependency: String)
        ensures
            final(self)@.dependencies == graph_add(old(self)@.dependencies, source@, dependency@),
            final(self)@.c_compiler == old(self)@.c_compiler,
            final(self)@.c_flags == old(self)@.c_flags,
            final(self)@.source_files == old(self)@.source_files,
    {
        self.dependencies.add_dependency(source, dependency);
    }

    /// Returns whether the dependencies of `source` hold the given
    /// `dependency`, under the file-name identity rule.
    pub fn has_dependency(&self, source: &String, dependency: &String) -> (r: bool)
        ensures
            r == graph_has(self@.dependencies, source@, dependency@),
    {
        self.dependencies.has_dependency(source, dependency)
    }

    /// Whether every entry key's file name carries a C-family extension,
    /// which `format` requires of a well-formed state.
    pub fn sources_valid(&self) -> (r: bool)
        ensures
            r == (forall|i: int|
                0 <= i < self@.dependencies.len() ==> has_c_family_ext(
                    file_part(#[trigger] self@.dependencies[i].0),
                )),
    {
        let n = self.dependencies.entries.len();
        let mut i: usize = 0;
        while i < n
            invariant
                0 <= i <= n,
                n == self@.dependencies.len(),
                n == self.dependencies.entries@.len(),
                forall|j: int|
                    0 <= j < i ==> has_c_family_ext(
                        file_part(#[trigger] self@.dependencies[j].0),
                    ),
            decreases n - i,
        {
            let e = &self.dependencies.entries[i];
            let fp = FilePath::new(e.0.clone().into());
            let okc = crate::strutil::ends_with_ext(fp.file_ref().as_str(), 'c');
            let okh = crate::strutil::ends_with_ext(fp.file_ref().as_str(), 'h');
            if !(okc || okh) {
                proof {
                    assert(!has_c_family_ext(file_part(self@.dependencies[i as int].0)));
                }
                return false;
            }
            i = i + 1;
        }
        true
    }

    /// Formats the items of the Makefile struct into the actual build-rule
    /// text, consuming the state. Every entrypoint key must carry a
    /// C-family extension (the driver only admits source files).
    pub fn format(self) -> (r: String)
        requires
            forall|i: int|
                0 <= i < self@.dependencies.len() ==> has_c_family_ext(
                    file_part(#[trigger] self@.dependencies[i].0),
                ),
        ensures
            r@ == format_view(self@),
    {
        let ghost mv = self@;
        let ghost gv = mv.dependencies;
        let Makefile { c_compiler, c_flags: _, source_files: _, dependencies } = self;
        let entries = dependencies.into_entries();
        let mut files_data: Vec<ExecutableData> = Vec::new();
        let mut i: usize = 0;
        while i < entries.len()
            invariant
                0 <= i <= entries@.len(),
                entries@.map_values(|e: (StrPath, Vec<StrPath>)| entry_views(e)) == gv,
                gv.len() == entries@.len(),
                forall|k: int|
                    0 <= k < gv.len() ==> has_c_family_ext(file_part(#[trigger] gv[k].0)),
                files_data@.len() == i,
                forall|k: int|
                    0 <= k < i ==> data_matches(#[trigger] files_data@[k], gv[k].0, gv[k].1),
            decreases entries@.len() - i,
        {
            let e = &entries[i];
            proof {
                assert(entry_views(entries@[i as int]) == gv[i as int]);
            }
            let key_string = e.0.clone().into();
            let mut deps_strings: Vec<String> = Vec::new();
            proof {
                assert(views_of_strings(deps_strings@) =~= gv[i as int].1.take(0));
            }
            let mut k: usize = 0;
            while k < e.1.len()
                invariant
                    0 <= k <= entries@[i as int].1@.len(),
                    0 <= i < entries@.len(),
                    e == &entries@[i as int],
                    deps_views(entries@[i as int].1@) == gv[i as int].1,
                    gv[i as int].1.len() == entries@[i as int].1@.len(),
                    views_of_strings(deps_strings@) == gv[i as int].1.take(k as int),
                decreases entries@[i as int].1@.len() - k,
            {
                proof {
                    assert(gv[i as int].1[k as int] == entries@[i as int].1@[k as int]@);
                }
                deps_strings.push(e.1[k].clone().into());
                proof {
                    assert(gv[i as int].1.take(k as int + 1).drop_last() =~= gv[i as int].1.take(
                        k as int,
                    ));
                    assert(gv[i as int].1.take(k as int + 1).last() == gv[i as int].1[k as int]);
                    assert(views_of_strings(deps_strings@) =~= gv[i as int].1.take(k as int + 1));
                }
                k = k + 1;
            }
            proof {
                assert(gv[i as int].1.take(entries@[i as int].1@.len() as int) =~= gv[i as int].1);
            }
            proof {
                assert(key_string@ == gv[i as int].0);
            }
            let data = ExecutableData::from(&key_string, deps_strings);
            files_data.push(data);
            i = i + 1;
        }

        let mut sources_acc = String::new();
        proof {
            assert(gv.take(0) =~= Seq::<(Seq<char>, Seq<Seq<char>>)>::empty());
            assert(sources_acc@ =~= sources_block(gv.take(0)));
        }
        let mut j: usize = 0;
        while j < files_data.len()
            invariant
                0 <= j <= files_data@.len(),
                files_data@.len() == gv.len(),
                forall|k: int|
                    0 <= k < gv.len() ==> data_matches(#[trigger] files_data@[k], gv[k].0, gv[k].1),
                sources_acc@ == sources_block(gv.take(j as int)),
            decreases files_data@.len() - j,
        {
            sources_acc.append(files_data[j].source.as_str());
            sources_acc.append("\n");
            proof {
                assert(gv.take(j as int + 1).drop_last() =~= gv.take(j as int));
                assert(gv.take(j as int + 1).last() == gv[j as int]);
                assert(sources_acc@ =~= sources_block(gv.take(j as int + 1)));
            }
            j = j + 1;
        }

        let mut all = String::from_str("all: ");
        let mut recipes = String::new();
        let mut clean = String::from_str("clean:\n");
        clean.append("\trm -f $(wildcard *.o)");
        clean.append("\n");
        let ghost clean_prefix = clean@;
        proof {
            assert(all@ + Seq::<char>::empty() =~= all@);
            assert(recipes@ =~= recipes_block(gv.take(0)));
            assert(clean@ + Seq::<char>::empty() =~= clean@);
        }
        let ghost all_prefix = all@;
        let mut j2: usize = 0;
        while j2 < files_data.len()
            invariant
                0 <= j2 <= files_data@.len(),
                files_data@.len() == gv.len(),
                forall|k: int|
                    0 <= k < gv.len() ==> data_matches(#[trigger] files_data@[k], gv[k].0, gv[k].1),
                all@ == all_prefix + labels_joined(gv.take(j2 as int)),
                recipes@ == recipes_block(gv.take(j2 as int)),
                clean@ == clean_prefix + clean_lines(gv.take(j2 as int)),
            decreases files_data@.len() - j2,
        {
            all.append(files_data[j2].exe_label.as_str());
            all.append(" ");
            recipes.append(files_data[j2].recipe.as_str());
            recipes.append("\n\n");
            clean.append(files_data[j2].clean_statement.as_str());
            clean.append("\n");
            clean.append(files_data[j2].clean_target.as_str());
            clean.append("\n");
            proof {
                assert(gv.take(j2 as int + 1).drop_last() =~= gv.take(j2 as int));
                assert(gv.take(j2 as int + 1).last() == gv[j2 as int]);
                assert(all@ =~= all_prefix + labels_joined(gv.take(j2 as int + 1)));
                assert(recipes@ =~= recipes_block(gv.take(j2 as int + 1)));
                assert(clean@ =~= clean_prefix + clean_lines(gv.take(j2 as int + 1)));
            }
            j2 = j2 + 1;
        }

        let mut out = String::from_str("CC = ");
        out.append(c_compiler.as_str());
        out.append("\n");
        out.append("CFLAGS = -Wall -g -pedantic -std=c99");
        out.append("\n\n");
        out.append(sources_acc.as_str());
        out.append("\n");
        out.append(".SUFFIXES: .c .o");
        out.append("\n\n");
        out.append(".PHONY: all clean");
        out.append("\n\n");
        out.append(all.as_str());
        out.append("\n\n");
        out.append(recipes.as_str());
        out.append(clean.as_str());
        proof {
            assert(gv.take(gv.len() as int) =~= gv);
            assert(out@ =~= format_view(mv));
        }
        out
    }
}

} // verus!
