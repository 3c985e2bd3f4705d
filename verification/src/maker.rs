//! File paths split into a directory and a file-name component, plus the
//! extension-swapping helpers used to move between source and header variants
//! of the same path.

use vstd::prelude::*;
use crate::strutil::{
    ends_c, ends_h, has_c_family_ext, push_char, contains_seq, contains_char, contains_str,
    str_contains_char, has_prefix,
};

verus! {

/// The two-character directory prefix `./` that `FilePath::new` normalizes away.
pub open spec fn dot_slash() -> Seq<char> {
    "./"@
}

/// Index of the last `/` in `s`, or `-1` when `s` holds none.
pub open spec fn last_slash_pos(s: Seq<char>) -> int
    decreases s.len(),
{
    if s.len() == 0 {
        -1
    } else if s[s.len() - 1] == '/' {
        s.len() - 1
    } else {
        last_slash_pos(s.drop_last())
    }
}

/// Everything up to and through the last `/` of `s` (empty when there is none).
pub open spec fn raw_dir_part(s: Seq<char>) -> Seq<char> {
    s.take(last_slash_pos(s) + 1)
}

/// The directory component of `s`: the raw prefix, with a directory that is
/// exactly `./` normalized to the empty string.
pub open spec fn dir_part(s: Seq<char>) -> Seq<char> {
    if raw_dir_part(s) == dot_slash() {
        Seq::<char>::empty()
    } else {
        raw_dir_part(s)
    }
}

/// The file-name component of `s`: everything after the last `/`.
pub open spec fn file_part(s: Seq<char>) -> Seq<char> {
    s.skip(last_slash_pos(s) + 1)
}

/// `s` with its final character replaced by `e`; the model of swapping
/// a C-family extension.
pub open spec fn with_ext(s: Seq<char>, e: char) -> Seq<char> {
    s.drop_last().push(e)
}

/// `s` with its extension swapped to `.c`.
pub open spec fn with_c(s: Seq<char>) -> Seq<char> {
    with_ext(s, 'c')
}

/// `s` with its extension swapped to `.h`.
pub open spec fn with_h(s: Seq<char>) -> Seq<char> {
    with_ext(s, 'h')
}

pub proof fn lemma_last_slash_pos_bounds(s: Seq<char>)
    ensures
        -1 <= last_slash_pos(s) < s.len(),
        last_slash_pos(s) >= 0 ==> s[last_slash_pos(s)] == '/',
        forall|j: int| last_slash_pos(s) < j < s.len() ==> s[j] != '/',
    decreases s.len(),
{
    if s.len() == 0 {
    } else if s[s.len() - 1] == '/' {
    } else {
        lemma_last_slash_pos_bounds(s.drop_last());
        assert forall|j: int| last_slash_pos(s) < j < s.len() implies s[j] != '/' by {
            if j < s.len() - 1 {
                assert(s.drop_last()[j] == s[j]);
            }
        }
    }
}

/// `last_slash_pos` is pinned by its characteristic properties.
pub proof fn lemma_last_slash_pos_is(s: Seq<char>, k: int)
    requires
        0 <= k < s.len(),
        s[k] == '/',
        forall|j: int| k < j < s.len() ==> s[j] != '/',
    ensures
        last_slash_pos(s) == k,
    decreases s.len(),
{
    if s[s.len() - 1] == '/' {
        assert(k == s.len() - 1);
    } else {
        assert(k < s.len() - 1);
        lemma_last_slash_pos_is(s.drop_last(), k);
    }
}

/// There is no slash at all, so `last_slash_pos` is `-1`.
pub proof fn lemma_last_slash_pos_none(s: Seq<char>)
    requires
        forall|j: int| 0 <= j < s.len() ==> s[j] != '/',
    ensures
        last_slash_pos(s) == -1,
    decreases s.len(),
{
    if s.len() > 0 {
        lemma_last_slash_pos_none(s.drop_last());
    }
}

/// Splitting a path and recombining its two components restores the path,
/// up to the normalization of a directory that is exactly `./`.
pub open spec fn normalize_leading_dot(s: Seq<char>) -> Seq<char> {
    if raw_dir_part(s) == dot_slash() {
        s.skip(2)
    } else {
        s
    }
}

/// The directory and file-name components of any path recombine to the
/// original path, after a leading `./` directory is normalized away.
pub proof fn lemma_split_combine(s: Seq<char>)
    ensures
        dir_part(s) + file_part(s) == normalize_leading_dot(s),
{
    lemma_last_slash_pos_bounds(s);
    let k = last_slash_pos(s) + 1;
    assert(s.take(k) + s.skip(k) =~= s);
    if raw_dir_part(s) == dot_slash() {
        reveal_strlit("./");
        assert(s.take(k).len() == k);
        assert(k == 2);
        assert(dir_part(s) + file_part(s) =~= s.skip(2));
    }
}

/// Appending a slash-free file name to a directory that is empty or
/// slash-terminated puts the split exactly at the seam: the file-name
/// component of the combined path is the appended name, and the raw
/// directory component is the directory.
pub proof fn lemma_components_of_combined(d: Seq<char>, f: Seq<char>)
    requires
        d.len() == 0 || d[d.len() - 1] == '/',
        forall|i: int| 0 <= i < f.len() ==> f[i] != '/',
    ensures
        file_part(d + f) == f,
        raw_dir_part(d + f) == d,
{
    let s = d + f;
    if d.len() == 0 {
        assert(forall|j: int| 0 <= j < s.len() ==> s[j] == f[j]);
        lemma_last_slash_pos_none(s);
        assert(file_part(s) =~= f);
        assert(raw_dir_part(s) =~= d);
    } else {
        assert(s[d.len() - 1] == '/');
        assert(forall|j: int| d.len() <= j < s.len() ==> s[j] == f[j - d.len()]);
        lemma_last_slash_pos_is(s, d.len() - 1);
        assert(file_part(s) =~= f);
        assert(raw_dir_part(s) =~= d);
    }
}

/// Dependency identity ignores the directory: two combined paths built from
/// slash-free file names have equal file-name components exactly when the
/// file names themselves are equal, whatever the directories are.
pub proof fn lemma_identity_by_file_name(
    d1: Seq<char>,
    f1: Seq<char>,
    d2: Seq<char>,
    f2: Seq<char>,
)
    requires
        d1.len() == 0 || d1[d1.len() - 1] == '/',
        d2.len() == 0 || d2[d2.len() - 1] == '/',
        forall|i: int| 0 <= i < f1.len() ==> f1[i] != '/',
        forall|i: int| 0 <= i < f2.len() ==> f2[i] != '/',
    ensures
        (file_part(d1 + f1) == file_part(d2 + f2)) <==> f1 == f2,
{
    lemma_components_of_combined(d1, f1);
    lemma_components_of_combined(d2, f2);
}

/// A path with a C-family extension keeps it in its file-name component,
/// which is at least two characters long.
pub proof fn lemma_file_part_ext(s: Seq<char>)
    requires
        has_c_family_ext(s),
    ensures
        file_part(s).len() >= 2,
        ends_c(file_part(s)) == ends_c(s),
        ends_h(file_part(s)) == ends_h(s),
{
    lemma_last_slash_pos_bounds(s);
    let k = last_slash_pos(s);
    assert(s[s.len() - 1] != '/');
    assert(s[s.len() - 2] != '/');
    assert(k < s.len() - 2);
    assert(file_part(s).len() == s.len() - k - 1);
    assert(file_part(s)[file_part(s).len() - 1] == s[s.len() - 1]);
    assert(file_part(s)[file_part(s).len() - 2] == s[s.len() - 2]);
}

/// Prefixing a directory leaves the trailing extension of a file name as it
/// is.
pub proof fn lemma_concat_keeps_ext(d: Seq<char>, f: Seq<char>)
    requires
        f.len() >= 2,
    ensures
        ends_c(d + f) == ends_c(f),
        ends_h(d + f) == ends_h(f),
{
    assert((d + f)[(d + f).len() - 1] == f[f.len() - 1]);
    assert((d + f)[(d + f).len() - 2] == f[f.len() - 2]);
}

/// Swapping to the same target extension twice is the same as swapping once.
pub proof fn lemma_with_ext_idempotent(s: Seq<char>, e: char)
    ensures
        with_ext(with_ext(s, e), e) == with_ext(s, e),
{
    assert(with_ext(with_ext(s, e), e) =~= with_ext(s, e));
}

/// Swapping a source path to the header extension and back restores it,
/// and symmetrically for a header path.
pub proof fn lemma_with_ext_round_trip(s: Seq<char>)
    ensures
        ends_c(s) ==> with_c(with_h(s)) == s,
        ends_h(s) ==> with_h(with_c(s)) == s,
{
    if ends_c(s) {
        assert(with_c(with_h(s)) =~= s);
    }
    if ends_h(s) {
        assert(with_h(with_c(s)) =~= s);
    }
}

/// Path of a file, split as (directory, file name). The directory is empty or
/// ends with `/`; the file name is everything after the last `/`.
#[derive(Debug)]
pub enum FilePath {
    Path(String, String),
}

impl Clone for FilePath {
    fn clone(&self) -> (r: Self)
        ensures
            r == *self,
    {
        match self {
            FilePath::Path(dir, file) => FilePath::Path(dir.clone(), file.clone()),
        }
    }
}

impl FilePath {
    /// The view of the directory component.
    pub open spec fn dir_view(&self) -> Seq<char> {
        match self {
            FilePath::Path(dir, _) => dir@,
        }
    }

    /// The view of the file-name component.
    pub open spec fn file_view(&self) -> Seq<char> {
        match self {
            FilePath::Path(_, file) => file@,
        }
    }

    /// The view of the whole path: directory then file name.
    pub open spec fn combined_view(&self) -> Seq<char> {
        self.dir_view() + self.file_view()
    }

    /// Constructs a new file path from a given string, splitting it at the
    /// last `/` into the directory and the file name; a directory that is
    /// exactly `./` is normalized to empty.
    pub fn new(path: String) -> (r: FilePath)
        ensures
            r.dir_view() == dir_part(path@),
            r.file_view() == file_part(path@),
    {
        let s = path.as_str();
        let n = s.unicode_len();
        let mut last: usize = 0;
        let mut found: bool = false;
        let mut i: usize = 0;
        while i < n
            invariant
                0 <= i <= n,
                n == s@.len(),
                !found ==> forall|j: int| 0 <= j < i ==> s@[j] != '/',
                found ==> 0 <= last < i && s@[last as int] == '/',
                found ==> forall|j: int| last < j < i ==> s@[j] != '/',
            decreases n - i,
        {
            if s.get_char(i) == '/' {
                last = i;
                found = true;
            }
            i = i + 1;
        }
        proof {
            if found {
                lemma_last_slash_pos_is(s@, last as int);
            } else {
                lemma_last_slash_pos_none(s@);
            }
        }
        let k: usize = if found {
            last + 1
        } else {
            0
        };
        proof {
            reveal_strlit("./");
        }
        let dot = k == 2 && s.get_char(0) == '.' && s.get_char(1) == '/';
        let dir = if dot {
            String::new()
        } else {
            String::from_str(s.substring_char(0, k))
        };
        let file = String::from_str(s.substring_char(k, n));
        proof {
            reveal_strlit("./");
            assert(last_slash_pos(s@) + 1 == k);
            if dot {
                assert(raw_dir_part(s@) =~= dot_slash());
            } else {
                if raw_dir_part(s@) == dot_slash() {
                    assert(raw_dir_part(s@).len() == 2);
                    assert(s@.take(k as int).len() == k);
                    assert(k == 2);
                    assert(raw_dir_part(s@)[0] == '.' && raw_dir_part(s@)[1] == '/');
                    assert(s@[0] == '.' && s@[1] == '/');
                }
            }
        }
        FilePath::Path(dir, file)
    }

    /// Swaps the file name to its header-extension variant.
    pub fn file_to_header(&mut self)
        requires
            has_c_family_ext(old(self).file_view()),
        ensures
            final(self).dir_view() == old(self).dir_view(),
            final(self).file_view() == with_h(old(self).file_view()),
    {
        let dir = self.dir_clone();
        let mut file = self.file_clone();
        replace_with_h(&mut file);
        *self = FilePath::Path(dir, file);
    }

    /// Swaps the file name to its source-extension variant.
    pub fn file_to_c(&mut self)
        requires
            has_c_family_ext(old(self).file_view()),
        ensures
            final(self).dir_view() == old(self).dir_view(),
            final(self).file_view() == with_c(old(self).file_view()),
    {
        let dir = self.dir_clone();
        let mut file = self.file_clone();
        replace_with_c(&mut file);
        *self = FilePath::Path(dir, file);
    }

    /// Ref to the directory string.
    pub fn dir_ref(&self) -> (r: &String)
        ensures
            r@ == self.dir_view(),
    {
        match self {
            FilePath::Path(dir, _) => dir,
        }
    }

    /// Ref to the file string.
    pub fn file_ref(&self) -> (r: &String)
        ensures
            r@ == self.file_view(),
    {
        match self {
            FilePath::Path(_, file) => file,
        }
    }

    /// Clone of the file string.
    pub fn file_clone(&self) -> (r: String)
        ensures
            r@ == self.file_view(),
    {
        match self {
            FilePath::Path(_, file) => file.clone(),
        }
    }

    /// Clone of the directory string.
    pub fn dir_clone(&self) -> (r: String)
        ensures
            r@ == self.dir_view(),
    {
        match self {
            FilePath::Path(dir, _) => dir.clone(),
        }
    }

    /// Combines the directory and file name into a whole path.
    pub fn combined(&self) -> (r: String)
        ensures
            r@ == self.combined_view(),
    {
        match self {
            FilePath::Path(dir, file) => {
                let mut dir_c = dir.clone();
                dir_c.append(file.as_str());
                dir_c
            },
        }
    }

    /// Combines the directory and file name into a whole path, consuming self.
    pub fn into_combined(self) -> (r: String)
        ensures
            r@ == self.combined_view(),
    {
        match self {
            FilePath::Path(mut dir, file) => {
                dir.append(file.as_str());
                dir
            },
        }
    }

    /// Consumes self and yields the pair (directory, file name).
    pub fn into_items(self) -> (r: (String, String))
        ensures
            r.0@ == self.dir_view(),
            r.1@ == self.file_view(),
    {
        match self {
            FilePath::Path(dir, file) => (dir, file),
        }
    }

    /// Composes the two paths: the result's directory is self's directory
    /// followed by `down_path`'s directory, and its file name is
    /// `down_path`'s file name. This resolves a relative path found inside
    /// a file against the directory containing that file.
    pub fn compose_ref(&self, down_path: FilePath) -> (r: FilePath)
        ensures
            r.dir_view() == self.dir_view() + down_path.dir_view(),
            r.file_view() == down_path.file_view(),
    {
        let (dir_new, file_new) = down_path.into_items();
        let mut dir_c = self.dir_clone();
        dir_c.append(dir_new.as_str());
        FilePath::Path(dir_c, file_new)
    }
}

/// Replaces the extension at the end of the file name with `.c`.
/// The name must already end in `.c` or `.h`.
pub fn replace_with_c(c_file: &mut String)
    requires
        has_c_family_ext(old(c_file)@),
    ensures
        final(c_file)@ == with_c(old(c_file)@),
{
    let n = c_file.as_str().unicode_len();
    let mut r = String::from_str(c_file.as_str().substring_char(0, n - 1));
    push_char(&mut r, 'c');
    proof {
        assert(old(c_file)@.subrange(0, old(c_file)@.len() - 1).push('c') =~= with_c(old(c_file)@));
    }
    *c_file = r;
}

/// Replaces the extension at the end of the file name with `.h`.
/// The name must already end in `.c` or `.h`.
pub fn replace_with_h(c_file: &mut String)
    requires
        has_c_family_ext(old(c_file)@),
    ensures
        final(c_file)@ == with_h(old(c_file)@),
{
    let n = c_file.as_str().unicode_len();
    let mut r = String::from_str(c_file.as_str().substring_char(0, n - 1));
    push_char(&mut r, 'h');
    proof {
        assert(old(c_file)@.subrange(0, old(c_file)@.len() - 1).push('h') =~= with_h(old(c_file)@));
    }
    *c_file = r;
}

/// Index of the first newline in `s`, or `s.len()` when there is none.
pub open spec fn first_nl(s: Seq<char>) -> nat
    decreases s.len(),
{
    if s.len() == 0 {
        0
    } else if s[0] == '\n' {
        0
    } else {
        1 + first_nl(s.drop_first())
    }
}

/// `first_nl` is pinned by its characteristic properties.
pub proof fn lemma_first_nl_is(s: Seq<char>, k: int)
    requires
        0 <= k <= s.len(),
        forall|j: int| 0 <= j < k ==> s[j] != '\n',
        k < s.len() ==> s[k] == '\n',
    ensures
        first_nl(s) == k,
    decreases s.len(),
{
    if s.len() == 0 {
    } else if s[0] == '\n' {
        assert(k == 0);
    } else {
        assert(k > 0);
        lemma_first_nl_is(s.drop_first(), k - 1);
    }
}

/// A line with a trailing carriage return has it removed.
pub open spec fn strip_cr(l: Seq<char>) -> Seq<char> {
    if l.len() > 0 && l[l.len() - 1] == '\r' {
        l.drop_last()
    } else {
        l
    }
}

/// The lines of `s`: split at every newline, a trailing carriage return
/// removed from each line, and no empty trailing line after a final newline.
pub open spec fn spec_lines(s: Seq<char>) -> Seq<Seq<char>>
    decreases s.len(),
{
    if s.len() == 0 {
        Seq::<Seq<char>>::empty()
    } else {
        let k = first_nl(s);
        if k >= s.len() {
            seq![strip_cr(s)]
        } else {
            seq![strip_cr(s.take(k as int))] + spec_lines(s.skip(k as int + 1))
        }
    }
}

/// The views of a list of strings.
pub open spec fn views_of_strings(v: Seq<String>) -> Seq<Seq<char>> {
    v.map_values(|x: String| x@)
}

/// Splits `s` into its lines.
pub fn split_into_lines(s: &str) -> (r: Vec<String>)
    ensures
        views_of_strings(r@) == spec_lines(s@),
{
    let n = s.unicode_len();
    let mut out: Vec<String> = Vec::new();
    let mut pos: usize = 0;
    proof {
        assert(views_of_strings(out@) =~= Seq::<Seq<char>>::empty());
        assert(s@.skip(0) =~= s@);
        assert(Seq::<Seq<char>>::empty() + spec_lines(s@) =~= spec_lines(s@));
    }
    while pos < n
        invariant
            0 <= pos <= n,
            n == s@.len(),
            spec_lines(s@) == views_of_strings(out@) + spec_lines(s@.skip(pos as int)),
        decreases n - pos,
    {
        let ghost u = s@.skip(pos as int);
        let mut j: usize = pos;
        let mut hit = false;
        while !hit && j < n
            invariant
                pos <= j <= n,
                n == s@.len(),
                forall|t: int| pos <= t < j ==> s@[t] != '\n',
                hit ==> j < n && s@[j as int] == '\n',
            decreases n - j + (if hit { 0int } else { 1int }),
        {
            if s.get_char(j) == '\n' {
                hit = true;
            } else {
                j = j + 1;
            }
        }
        proof {
            assert(forall|t: int| 0 <= t < j - pos ==> u[t] != '\n');
            if hit {
                assert(u[j - pos] == '\n');
            } else {
                assert(j == n);
            }
            lemma_first_nl_is(u, j as int - pos as int);
        }
        let endx = if j > pos && s.get_char(j - 1) == '\r' {
            j - 1
        } else {
            j
        };
        let line = String::from_str(s.substring_char(pos, endx));
        proof {
            if hit {
                assert(u.take(j - pos as int) =~= s@.subrange(pos as int, j as int));
                assert(strip_cr(u.take(j - pos as int)) =~= line@);
            } else {
                assert(u =~= s@.subrange(pos as int, n as int));
                assert(strip_cr(u) =~= line@);
            }
        }
        out.push(line);
        let ghost out_snap = views_of_strings(out@);
        let ghost old_pos = pos as int;
        if hit {
            pos = j + 1;
        } else {
            pos = j;
        }
        proof {
            assert(out_snap =~= views_of_strings(out@.drop_last()).push(line@));
            assert(views_of_strings(out@) =~= views_of_strings(out@.drop_last()).push(line@));
            if hit {
                assert(u.skip(j - old_pos + 1) =~= s@.skip(pos as int));
                assert(spec_lines(u) == seq![strip_cr(u.take(j - old_pos))] + spec_lines(
                    u.skip(j - old_pos + 1),
                ));
                assert(views_of_strings(out@) + spec_lines(s@.skip(pos as int)) =~= views_of_strings(
                    out@.drop_last(),
                ) + spec_lines(u));
            } else {
                assert(spec_lines(u) == seq![strip_cr(u)]);
                assert(s@.skip(pos as int).len() == 0);
                assert(spec_lines(s@.skip(pos as int)) =~= Seq::<Seq<char>>::empty());
                assert(views_of_strings(out@) + spec_lines(s@.skip(pos as int)) =~= views_of_strings(
                    out@.drop_last(),
                ) + spec_lines(u));
            }
        }
    }
    proof {
        assert(s@.skip(pos as int).len() == 0);
        assert(spec_lines(s@.skip(pos as int)) =~= Seq::<Seq<char>>::empty());
        assert(views_of_strings(out@) + Seq::<Seq<char>>::empty() =~= views_of_strings(out@));
    }
    out
}

/// The token that opens a local file-inclusion directive line.
pub open spec fn directive_token() -> Seq<char> {
    "#inc"@ + "lude"@
}

/// The marker that identifies a standard-library reference, which is never
/// treated as a local dependency.
pub open spec fn std_marker() -> Seq<char> {
    "std"@
}

/// True when `l` begins with the directive token.
pub open spec fn starts_with_token(l: Seq<char>) -> bool {
    l.len() >= directive_token().len() && l.take(directive_token().len() as int)
        == directive_token()
}

/// A line that names a local dependency: it begins with the directive token,
/// does not reference the standard library, and does not use the
/// angle-bracket (system) form.
pub open spec fn is_local_directive(l: Seq<char>) -> bool {
    starts_with_token(l) && !contains_seq(l, std_marker()) && !contains_char(l, '<')
}

/// What remains of a directive line after the token, the following space and
/// the surrounding quotes are removed: the characters after the opening
/// quote and before the final one.
pub open spec fn strip_directive(l: Seq<char>) -> Seq<char> {
    if l.len() >= 11 {
        l.subrange(10, l.len() - 1)
    } else {
        Seq::<char>::empty()
    }
}

/// The executable directive token.
fn directive_token_string() -> (r: String)
    ensures
        r@ == directive_token(),
{
    let mut t = String::from_str("#inc");
    t.append("lude");
    t
}

/// Removes the directive token and the quotes that wrap the path from a
/// given directive line. The line must start with the token.
pub fn remove_directive(s: String) -> (r: String)
    requires
        starts_with_token(s@),
    ensures
        r@ == strip_directive(s@),
{
    let n = s.as_str().unicode_len();
    if n >= 11 {
        String::from_str(s.as_str().substring_char(10, n - 1))
    } else {
        String::new()
    }
}

/// The relative paths named by the local directives of `s`, line by line,
/// in order.
pub open spec fn directive_paths_of_lines(ls: Seq<Seq<char>>) -> Seq<Seq<char>>
    decreases ls.len(),
{
    if ls.len() == 0 {
        Seq::<Seq<char>>::empty()
    } else {
        directive_paths_of_lines(ls.drop_last()) + (if is_local_directive(ls.last()) {
            seq![strip_directive(ls.last())]
        } else {
            Seq::<Seq<char>>::empty()
        })
    }
}

/// The relative paths named by the local directives of a whole file.
pub open spec fn directive_paths(s: Seq<char>) -> Seq<Seq<char>> {
    directive_paths_of_lines(spec_lines(s))
}

/// Extracts the relative paths named by the local directives of `contents`.
pub fn scan_directives(contents: &str) -> (r: Vec<String>)
    ensures
        views_of_strings(r@) == directive_paths(contents@),
{
    let lines = split_into_lines(contents);
    let token = directive_token_string();
    let mut out: Vec<String> = Vec::new();
    let ghost lv = views_of_strings(lines@);
    proof {
        assert(lv.take(0) =~= Seq::<Seq<char>>::empty());
        assert(views_of_strings(out@) =~= Seq::<Seq<char>>::empty());
        assert(directive_paths_of_lines(lv.take(0)) == Seq::<Seq<char>>::empty());
    }
    let mut i: usize = 0;
    while i < lines.len()
        invariant
            0 <= i <= lines@.len(),
            lv == views_of_strings(lines@),
            lv == spec_lines(contents@),
            token@ == directive_token(),
            views_of_strings(out@) == directive_paths_of_lines(lv.take(i as int)),
        decreases lines@.len() - i,
    {
        let line = &lines[i];
        proof {
            assert(lv[i as int] == line@);
        }
        let pref = has_prefix(line.as_str(), token.as_str());
        let nostd = !contains_str(line.as_str(), "std");
        let nolt = !str_contains_char(line.as_str(), '<');
        let ghost out_before = views_of_strings(out@);
        if pref && nostd && nolt {
            let stripped = remove_directive(line.clone());
            out.push(stripped);
            proof {
                assert(views_of_strings(out@) =~= out_before.push(strip_directive(lv[i as int])));
            }
        }
        proof {
            assert(lv.take(i as int + 1).drop_last() =~= lv.take(i as int));
            assert(lv.take(i as int + 1).last() == lv[i as int]);
            if is_local_directive(lv[i as int]) {
                assert(views_of_strings(out@) =~= directive_paths_of_lines(lv.take(i as int))
                    + seq![strip_directive(lv[i as int])]);
            } else {
                assert(views_of_strings(out@) =~= directive_paths_of_lines(lv.take(i as int))
                    + Seq::<Seq<char>>::empty());
            }
        }
        i = i + 1;
    }
    proof {
        assert(lv.take(lines@.len() as int) =~= lv);
    }
    out
}

} // verus!
