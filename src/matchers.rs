//! Predicates over repository paths, with hints that let a traversal of the
//! working copy skip whole subtrees.

use vstd::prelude::*;

use crate::component_set::ComponentSet;
use crate::dirs::{step_toward, Dirs};
use crate::repo_path::{component_views, is_prefix, RepoPath};

verus! {

/// The abstract value of a selector of directory entries.
pub enum Selection {
    /// Every entry.
    All,
    /// The entries with these names.
    Only(Set<Seq<char>>),
}

impl Selection {
    /// Whether the entry named `c` is selected.
    pub open spec fn admits(self, c: Seq<char>) -> bool {
        match self {
            Selection::All => true,
            Selection::Only(s) => s.contains(c),
        }
    }
}

/// The abstract value of a [`Visit`].
pub enum VisitView {
    /// Everything below matches.
    AllRecursively,
    /// Only the selected subdirectories and files may hold matches.
    Specific { dirs: Selection, files: Selection },
}

/// How a traversal should enter a directory.
#[derive(Debug)]
pub enum Visit {
    /// Everything in the directory is *guaranteed* to match, no need to check
    /// descendants
    AllRecursively,
    /// Only the listed subdirectories need to be entered, and only the listed
    /// files directly inside can match
    Specific { dirs: VisitDirs, files: VisitFiles },
}

/// Which subdirectories to enter.
#[derive(Debug)]
pub enum VisitDirs {
    All,
    Only(ComponentSet),
}

/// Which files to consider.
#[derive(Debug)]
pub enum VisitFiles {
    All,
    Only(ComponentSet),
}

impl View for VisitDirs {
    type V = Selection;

    open spec fn view(&self) -> Selection {
        match self {
            VisitDirs::All => Selection::All,
            VisitDirs::Only(s) => Selection::Only(s@),
        }
    }
}

impl View for VisitFiles {
    type V = Selection;

    open spec fn view(&self) -> Selection {
        match self {
            VisitFiles::All => Selection::All,
            VisitFiles::Only(s) => Selection::Only(s@),
        }
    }
}

impl View for Visit {
    type V = VisitView;

    open spec fn view(&self) -> VisitView {
        match self {
            Visit::AllRecursively => VisitView::AllRecursively,
            Visit::Specific { dirs, files } => VisitView::Specific { dirs: dirs@, files: files@ },
        }
    }
}

/// The visit that enters nothing.
pub open spec fn nothing_view() -> VisitView {
    VisitView::Specific {
        dirs: Selection::Only(Set::empty()),
        files: Selection::Only(Set::empty()),
    }
}

impl Visit {
    /// The visit that enters no subdirectory and considers no file.
    pub fn nothing() -> (r: Visit)
        ensures
            r@ == nothing_view(),
    {
        Visit::Specific {
            dirs: VisitDirs::Only(ComponentSet::new()),
            files: VisitFiles::Only(ComponentSet::new()),
        }
    }
}

impl PartialEq for VisitDirs {
    fn eq(&self, other: &Self) -> (r: bool)
        ensures
            r == (self@ == other@),
    {
        match self {
            VisitDirs::All => other.is_all(),
            VisitDirs::Only(a) => match other {
                VisitDirs::All => false,
                VisitDirs::Only(b) => a == b,
            },
        }
    }
}

impl VisitDirs {
    /// Whether every subdirectory is entered.
    pub fn is_all(&self) -> (r: bool)
        ensures
            r == (self@ == Selection::All),
    {
        match self {
            VisitDirs::All => true,
            VisitDirs::Only(_) => false,
        }
    }
}

impl vstd::std_specs::cmp::PartialEqSpecImpl for VisitDirs {
    open spec fn obeys_eq_spec() -> bool {
        true
    }

    open spec fn eq_spec(&self, other: &Self) -> bool {
        self@ == other@
    }
}

impl Eq for VisitDirs {

}

impl PartialEq for VisitFiles {
    fn eq(&self, other: &Self) -> (r: bool)
        ensures
            r == (self@ == other@),
    {
        match self {
            VisitFiles::All => other.is_all(),
            VisitFiles::Only(a) => match other {
                VisitFiles::All => false,
                VisitFiles::Only(b) => a == b,
            },
        }
    }
}

impl VisitFiles {
    /// Whether every file is considered.
    pub fn is_all(&self) -> (r: bool)
        ensures
            r == (self@ == Selection::All),
    {
        match self {
            VisitFiles::All => true,
            VisitFiles::Only(_) => false,
        }
    }
}

impl vstd::std_specs::cmp::PartialEqSpecImpl for VisitFiles {
    open spec fn obeys_eq_spec() -> bool {
        true
    }

    open spec fn eq_spec(&self, other: &Self) -> bool {
        self@ == other@
    }
}

impl Eq for VisitFiles {

}

impl PartialEq for Visit {
    fn eq(&self, other: &Self) -> (r: bool)
        ensures
            r == (self@ == other@),
    {
        match self {
            Visit::AllRecursively => match other {
                Visit::AllRecursively => true,
                Visit::Specific { .. } => false,
            },
            Visit::Specific { dirs, files } => match other {
                Visit::AllRecursively => false,
                Visit::Specific { dirs: other_dirs, files: other_files } => *dirs == *other_dirs
                    && *files == *other_files,
            },
        }
    }
}

impl vstd::std_specs::cmp::PartialEqSpecImpl for Visit {
    open spec fn obeys_eq_spec() -> bool {
        true
    }

    open spec fn eq_spec(&self, other: &Self) -> bool {
        self@ == other@
    }
}

impl Eq for Visit {

}


/// The abstract values of a list of paths.
pub open spec fn path_views(ps: Seq<RepoPath>) -> Seq<Seq<Seq<char>>> {
    ps.map_values(|p: RepoPath| p@)
}

/// The components that lead from `dir` one level down toward the directory
/// of some path of `files`.
pub open spec fn subdirs_toward_files(files: Set<Seq<Seq<char>>>, dir: Seq<Seq<char>>) -> Set<
    Seq<char>,
> {
    Set::new(
        |c: Seq<char>|
            exists|f: Seq<Seq<char>>| #[trigger]
                files.contains(f) && step_toward(dir, f.drop_last()).contains(c),
    )
}

/// The components that lead from `dir` one level down toward some path of
/// `targets`.
pub open spec fn subdirs_toward(targets: Set<Seq<Seq<char>>>, dir: Seq<Seq<char>>) -> Set<
    Seq<char>,
> {
    Set::new(
        |c: Seq<char>|
            exists|t: Seq<Seq<char>>| #[trigger]
                targets.contains(t) && step_toward(dir, t).contains(c),
    )
}

/// The base names of the paths of `paths` that lie directly in `dir`.
pub open spec fn basenames_in(paths: Set<Seq<Seq<char>>>, dir: Seq<Seq<char>>) -> Set<Seq<char>> {
    Set::new(
        |c: Seq<char>|
            exists|p: Seq<Seq<char>>| #[trigger]
                paths.contains(p) && p.len() > 0 && p.drop_last() == dir && p.last() == c,
    )
}

/// Whether some path of `prefixes` is an ancestor of `path`, or `path` itself.
pub open spec fn under_some_prefix(prefixes: Set<Seq<Seq<char>>>, path: Seq<Seq<char>>) -> bool {
    exists|q: Seq<Seq<char>>| #[trigger] prefixes.contains(q) && is_prefix(q, path)
}

proof fn lemma_subdirs_toward_files_insert(
    files: Set<Seq<Seq<char>>>,
    f: Seq<Seq<char>>,
    dir: Seq<Seq<char>>,
)
    ensures
        subdirs_toward_files(files.insert(f), dir) == subdirs_toward_files(files, dir).union(
            step_toward(dir, f.drop_last()),
        ),
{
    let after = files.insert(f);
    assert forall|c: Seq<char>|
        subdirs_toward_files(after, dir).contains(c) <==> subdirs_toward_files(files, dir).union(
            step_toward(dir, f.drop_last()),
        ).contains(c) by {
        if subdirs_toward_files(after, dir).contains(c) {
            let g = choose|g: Seq<Seq<char>>| #[trigger]
                after.contains(g) && step_toward(dir, g.drop_last()).contains(c);
            if g != f {
                assert(files.contains(g));
            }
        }
        if subdirs_toward_files(files, dir).contains(c) {
            let g = choose|g: Seq<Seq<char>>| #[trigger]
                files.contains(g) && step_toward(dir, g.drop_last()).contains(c);
            assert(after.contains(g));
        }
        if step_toward(dir, f.drop_last()).contains(c) {
            assert(after.contains(f));
        }
    }
    assert(subdirs_toward_files(after, dir) =~= subdirs_toward_files(files, dir).union(
        step_toward(dir, f.drop_last()),
    ));
}

proof fn lemma_subdirs_toward_insert(
    targets: Set<Seq<Seq<char>>>,
    t: Seq<Seq<char>>,
    dir: Seq<Seq<char>>,
)
    ensures
        subdirs_toward(targets.insert(t), dir) == subdirs_toward(targets, dir).union(
            step_toward(dir, t),
        ),
{
    let after = targets.insert(t);
    assert forall|c: Seq<char>|
        subdirs_toward(after, dir).contains(c) <==> subdirs_toward(targets, dir).union(
            step_toward(dir, t),
        ).contains(c) by {
        if subdirs_toward(after, dir).contains(c) {
            let g = choose|g: Seq<Seq<char>>| #[trigger]
                after.contains(g) && step_toward(dir, g).contains(c);
            if g != t {
                assert(targets.contains(g));
            }
        }
        if subdirs_toward(targets, dir).contains(c) {
            let g = choose|g: Seq<Seq<char>>| #[trigger]
                targets.contains(g) && step_toward(dir, g).contains(c);
            assert(after.contains(g));
        }
        if step_toward(dir, t).contains(c) {
            assert(after.contains(t));
        }
    }
    assert(subdirs_toward(after, dir) =~= subdirs_toward(targets, dir).union(step_toward(dir, t)));
}

proof fn lemma_basenames_in_insert(
    paths: Set<Seq<Seq<char>>>,
    p: Seq<Seq<char>>,
    dir: Seq<Seq<char>>,
)
    ensures
        basenames_in(paths.insert(p), dir) == if p.len() > 0 && p.drop_last() == dir {
            basenames_in(paths, dir).insert(p.last())
        } else {
            basenames_in(paths, dir)
        },
{
    let after = paths.insert(p);
    let rhs = if p.len() > 0 && p.drop_last() == dir {
        basenames_in(paths, dir).insert(p.last())
    } else {
        basenames_in(paths, dir)
    };
    assert forall|c: Seq<char>| basenames_in(after, dir).contains(c) <==> rhs.contains(c) by {
        if basenames_in(after, dir).contains(c) {
            let g = choose|g: Seq<Seq<char>>| #[trigger]
                after.contains(g) && g.len() > 0 && g.drop_last() == dir && g.last() == c;
            if g != p {
                assert(paths.contains(g));
            }
        }
        if basenames_in(paths, dir).contains(c) {
            let g = choose|g: Seq<Seq<char>>| #[trigger]
                paths.contains(g) && g.len() > 0 && g.drop_last() == dir && g.last() == c;
            assert(after.contains(g));
        }
        if p.len() > 0 && p.drop_last() == dir && c == p.last() {
            assert(after.contains(p));
        }
    }
    assert(basenames_in(after, dir) =~= rhs);
}

/// Whether `p` is among `ps`.
fn contains_path(ps: &Vec<RepoPath>, p: &RepoPath) -> (r: bool)
    ensures
        r == path_views(ps@).contains(p@),
{
    let mut i: usize = 0;
    while i < ps.len()
        invariant
            i <= ps@.len(),
            forall|k: int| 0 <= k < i ==> ps@[k]@ != p@,
        decreases ps@.len() - i,
    {
        if ps[i] == *p {
            assert(path_views(ps@)[i as int] == p@);
            return true;
        }
        i = i + 1;
    }
    false
}

/// The paths of `ps`, each once.
fn unique_paths(ps: &[RepoPath]) -> (r: Vec<RepoPath>)
    ensures
        path_views(r@).to_set() == path_views(ps@).to_set(),
        path_views(r@).no_duplicates(),
{
    let mut r: Vec<RepoPath> = Vec::new();
    let mut i: usize = 0;
    assert(path_views(ps@).take(0).to_set() =~= path_views(r@).to_set());
    while i < ps.len()
        invariant
            i <= ps@.len(),
            path_views(r@).to_set() == path_views(ps@).take(i as int).to_set(),
            path_views(r@).no_duplicates(),
        decreases ps@.len() - i,
    {
        let ghost prev = r@;
        let ghost x = ps@[i as int]@;
        proof {
            assert(path_views(ps@).take(i + 1) =~= path_views(ps@).take(i as int).push(x));
            path_views(ps@).take(i as int).lemma_push_to_set_commute(x);
        }
        if !contains_path(&r, &ps[i]) {
            r.push(ps[i].clone());
            proof {
                assert(path_views(r@) =~= path_views(prev).push(x));
                path_views(prev).lemma_push_to_set_commute(x);
            }
        } else {
            assert(path_views(prev).to_set().contains(x));
            assert(path_views(prev).to_set().insert(x) =~= path_views(prev).to_set());
        }
        i = i + 1;
    }
    assert(path_views(ps@).take(ps@.len() as int) =~= path_views(ps@));
    r
}

/// A predicate over paths, with a hint for each directory on how a traversal
/// should enter it.
pub trait Matcher {
    /// Whether the file at `file` satisfies the predicate.
    spec fn spec_matches(&self, file: Seq<Seq<char>>) -> bool;

    /// How a traversal should enter the directory `dir`.
    spec fn spec_visit(&self, dir: Seq<Seq<char>>) -> VisitView;

    fn matches(&self, file: &RepoPath) -> (r: bool)
        ensures
            r == self.spec_matches(file@),
    ;

    fn visit(&self, dir: &RepoPath) -> (r: Visit)
        ensures
            r@ == self.spec_visit(dir@),
    ;
}

/// Whether a traversal that starts at the root and follows the matcher's
/// `visit` hints, having come down to the directory `file.take(depth)`,
/// reaches the file `file`: an `AllRecursively` hint admits everything
/// below, and otherwise the next component must be selected, as a
/// subdirectory on the way and as a file at the end.
pub open spec fn walk_reaches<M: Matcher>(m: &M, file: Seq<Seq<char>>, depth: int) -> bool
    decreases file.len() - depth,
{
    if depth < 0 || depth >= file.len() {
        false
    } else {
        match m.spec_visit(file.take(depth)) {
            VisitView::AllRecursively => true,
            VisitView::Specific { dirs, files } => if depth == file.len() - 1 {
                files.admits(file[depth])
            } else {
                dirs.admits(file[depth]) && walk_reaches(m, file, depth + 1)
            },
        }
    }
}

/// Matches no path.
pub struct NothingMatcher;

impl Matcher for NothingMatcher {
    open spec fn spec_matches(&self, file: Seq<Seq<char>>) -> bool {
        false
    }

    open spec fn spec_visit(&self, dir: Seq<Seq<char>>) -> VisitView {
        nothing_view()
    }

    fn matches(&self, _file: &RepoPath) -> (r: bool) {
        false
    }

    fn visit(&self, _dir: &RepoPath) -> (r: Visit) {
        Visit::nothing()
    }
}

/// Matches every path.
pub struct EverythingMatcher;

impl Matcher for EverythingMatcher {
    open spec fn spec_matches(&self, file: Seq<Seq<char>>) -> bool {
        true
    }

    open spec fn spec_visit(&self, dir: Seq<Seq<char>>) -> VisitView {
        VisitView::AllRecursively
    }

    fn matches(&self, _file: &RepoPath) -> (r: bool) {
        true
    }

    fn visit(&self, _dir: &RepoPath) -> (r: Visit) {
        Visit::AllRecursively
    }
}

/// Matches the files of an explicit set.
pub struct FilesMatcher {
    files: Vec<RepoPath>,
    dirs: Dirs,
}

impl View for FilesMatcher {
    type V = Set<Seq<Seq<char>>>;

    closed spec fn view(&self) -> Set<Seq<Seq<char>>> {
        path_views(self.files@).to_set()
    }
}

impl FilesMatcher {
    #[verifier::type_invariant]
    spec fn wf(self) -> bool {
        &&& self.dirs.wf()
        &&& path_views(self.files@).no_duplicates()
        &&& forall|d: Seq<Seq<char>>| #[trigger]
            self.dirs.dirs_in(d) == subdirs_toward_files(path_views(self.files@).to_set(), d)
        &&& forall|d: Seq<Seq<char>>| #[trigger]
            self.dirs.files_in(d) == basenames_in(path_views(self.files@).to_set(), d)
    }

    /// The matcher of the files `files`; none of them may be the root.
    pub fn new(files: Vec<RepoPath>) -> (r: FilesMatcher)
        requires
            forall|i: int| 0 <= i < files@.len() ==> (#[trigger] files@[i])@.len() > 0,
        ensures
            r@ == path_views(files@).to_set(),
    {
        let ghost given = files@;
        let files = unique_paths(files.as_slice());
        proof {
            assert forall|k: int| 0 <= k < files@.len() implies (#[trigger] files@[k])@.len() > 0 by {
                assert(path_views(files@)[k] == files@[k]@);
                assert(path_views(files@).to_set().contains(files@[k]@));
                let j = choose|j: int| 0 <= j < given.len() && path_views(given)[j] == files@[k]@;
                assert(given[j]@ == files@[k]@);
            }
        }
        let mut dirs = Dirs::new();
        let mut i: usize = 0;
        proof {
            assert forall|d: Seq<Seq<char>>| #[trigger]
                dirs.dirs_in(d) == subdirs_toward_files(path_views(files@).take(0).to_set(), d) by {
                assert(subdirs_toward_files(path_views(files@).take(0).to_set(), d) =~= Set::<
                    Seq<char>,
                >::empty());
            }
            assert forall|d: Seq<Seq<char>>| #[trigger]
                dirs.files_in(d) == basenames_in(path_views(files@).take(0).to_set(), d) by {
                assert(basenames_in(path_views(files@).take(0).to_set(), d) =~= Set::<
                    Seq<char>,
                >::empty());
            }
        }
        while i < files.len()
            invariant
                i <= files@.len(),
                dirs.wf(),
                forall|k: int| 0 <= k < files@.len() ==> (#[trigger] files@[k])@.len() > 0,
                forall|d: Seq<Seq<char>>| #[trigger]
                    dirs.dirs_in(d) == subdirs_toward_files(
                        path_views(files@).take(i as int).to_set(),
                        d,
                    ),
                forall|d: Seq<Seq<char>>| #[trigger]
                    dirs.files_in(d) == basenames_in(path_views(files@).take(i as int).to_set(), d),
            decreases files@.len() - i,
        {
            let ghost before = path_views(files@).take(i as int).to_set();
            let ghost f = files@[i as int]@;
            dirs.add_file(&files[i]);
            proof {
                assert(path_views(files@).take(i + 1) =~= path_views(files@).take(i as int).push(f));
                path_views(files@).take(i as int).lemma_push_to_set_commute(f);
                let after = before.insert(f);
                assert forall|d: Seq<Seq<char>>| #[trigger]
                    dirs.dirs_in(d) == subdirs_toward_files(after, d) by {
                    lemma_subdirs_toward_files_insert(before, f, d);
                }
                assert forall|d: Seq<Seq<char>>| #[trigger]
                    dirs.files_in(d) == basenames_in(after, d) by {
                    lemma_basenames_in_insert(before, f, d);
                }
            }
            i = i + 1;
        }
        assert(path_views(files@).take(files@.len() as int) =~= path_views(files@));
        FilesMatcher { files, dirs }
    }
}

impl Matcher for FilesMatcher {
    open spec fn spec_matches(&self, file: Seq<Seq<char>>) -> bool {
        self@.contains(file)
    }

    open spec fn spec_visit(&self, dir: Seq<Seq<char>>) -> VisitView {
        VisitView::Specific {
            dirs: Selection::Only(subdirs_toward_files(self@, dir)),
            files: Selection::Only(basenames_in(self@, dir)),
        }
    }

    fn matches(&self, file: &RepoPath) -> (r: bool) {
        contains_path(&self.files, file)
    }

    fn visit(&self, dir: &RepoPath) -> (r: Visit) {
        proof {
            use_type_invariant(self);
        }
        let dirs = self.dirs.get_dirs(dir);
        let files = self.dirs.get_files(dir);
        Visit::Specific { dirs: VisitDirs::Only(dirs), files: VisitFiles::Only(files) }
    }
}

/// Matches every path at or below one of a list of prefixes.
pub struct PrefixMatcher {
    prefixes: Vec<RepoPath>,
    dirs: Dirs,
}

impl View for PrefixMatcher {
    type V = Set<Seq<Seq<char>>>;

    closed spec fn view(&self) -> Set<Seq<Seq<char>>> {
        path_views(self.prefixes@).to_set()
    }
}

impl PrefixMatcher {
    #[verifier::type_invariant]
    spec fn wf(self) -> bool {
        &&& self.dirs.wf()
        &&& path_views(self.prefixes@).no_duplicates()
        &&& forall|d: Seq<Seq<char>>| #[trigger]
            self.dirs.dirs_in(d) == subdirs_toward(path_views(self.prefixes@).to_set(), d)
        &&& forall|d: Seq<Seq<char>>| #[trigger]
            self.dirs.files_in(d) == basenames_in(path_views(self.prefixes@).to_set(), d)
    }

    /// The matcher of everything at or below one of `prefixes`.
    pub fn new(prefixes: &[RepoPath]) -> (r: PrefixMatcher)
        ensures
            r@ == path_views(prefixes@).to_set(),
    {
        let prefixes = unique_paths(prefixes);
        let mut dirs = Dirs::new();
        let mut i: usize = 0;
        proof {
            assert forall|d: Seq<Seq<char>>| #[trigger]
                dirs.dirs_in(d) == subdirs_toward(path_views(prefixes@).take(0).to_set(), d) by {
                assert(subdirs_toward(path_views(prefixes@).take(0).to_set(), d) =~= Set::<
                    Seq<char>,
                >::empty());
            }
            assert forall|d: Seq<Seq<char>>| #[trigger]
                dirs.files_in(d) == basenames_in(path_views(prefixes@).take(0).to_set(), d) by {
                assert(basenames_in(path_views(prefixes@).take(0).to_set(), d) =~= Set::<
                    Seq<char>,
                >::empty());
            }
        }
        while i < prefixes.len()
            invariant
                i <= prefixes@.len(),
                dirs.wf(),
                forall|d: Seq<Seq<char>>| #[trigger]
                    dirs.dirs_in(d) == subdirs_toward(path_views(prefixes@).take(i as int).to_set(), d),
                forall|d: Seq<Seq<char>>| #[trigger]
                    dirs.files_in(d) == basenames_in(
                        path_views(prefixes@).take(i as int).to_set(),
                        d,
                    ),
            decreases prefixes@.len() - i,
        {
            let ghost before = path_views(prefixes@).take(i as int).to_set();
            let ghost q = prefixes@[i as int]@;
            let ghost start = dirs;
            dirs.add_dir(&prefixes[i]);
            let ghost mid = dirs;
            if !prefixes[i].is_root() {
                dirs.add_file(&prefixes[i]);
            }
            proof {
                assert(path_views(prefixes@).take(i + 1) =~= path_views(prefixes@).take(
                    i as int,
                ).push(q));
                path_views(prefixes@).take(i as int).lemma_push_to_set_commute(q);
                let after = before.insert(q);
                assert forall|d: Seq<Seq<char>>| #[trigger]
                    dirs.dirs_in(d) == subdirs_toward(after, d) by {
                    assert(mid.dirs_in(d) == start.dirs_in(d).union(step_toward(d, q)));
                    if q.len() > 0 {
                        lemma_step_toward_parent(d, q);
                        assert(dirs.dirs_in(d) == mid.dirs_in(d).union(
                            step_toward(d, q.drop_last()),
                        ));
                    }
                    lemma_subdirs_toward_insert(before, q, d);
                    assert(dirs.dirs_in(d) =~= subdirs_toward(after, d));
                }
                assert forall|d: Seq<Seq<char>>| #[trigger]
                    dirs.files_in(d) == basenames_in(after, d) by {
                    assert(mid.files_in(d) == start.files_in(d));
                    lemma_basenames_in_insert(before, q, d);
                }
            }
            i = i + 1;
        }
        assert(path_views(prefixes@).take(prefixes@.len() as int) =~= path_views(prefixes@));
        PrefixMatcher { prefixes, dirs }
    }
}

proof fn lemma_step_toward_parent(dir: Seq<Seq<char>>, q: Seq<Seq<char>>)
    requires
        q.len() > 0,
    ensures
        step_toward(dir, q.drop_last()).subset_of(step_toward(dir, q)),
{
    if dir.len() < q.drop_last().len() && is_prefix(dir, q.drop_last()) {
        assert(q.take(dir.len() as int) =~= q.drop_last().take(dir.len() as int));
    }
}

impl Matcher for PrefixMatcher {
    open spec fn spec_matches(&self, file: Seq<Seq<char>>) -> bool {
        under_some_prefix(self@, file)
    }

    open spec fn spec_visit(&self, dir: Seq<Seq<char>>) -> VisitView {
        if under_some_prefix(self@, dir) {
            VisitView::AllRecursively
        } else {
            VisitView::Specific {
                dirs: Selection::Only(subdirs_toward(self@, dir)),
                files: Selection::Only(basenames_in(self@, dir)),
            }
        }
    }

    fn matches(&self, file: &RepoPath) -> (r: bool) {
        let components = file.components();
        let mut prefix = RepoPath::root();
        let mut i: usize = 0;
        loop
            invariant
                i <= components@.len(),
                component_views(components@) == file@,
                prefix@ == file@.take(i as int),
                forall|k: int| 0 <= k < i ==> !self@.contains(#[trigger] file@.take(k)),
            decreases components@.len() - i,
        {
            if contains_path(&self.prefixes, &prefix) {
                assert(self@.contains(prefix@));
                assert(is_prefix(file@.take(i as int), file@));
                return true;
            }
            if i == components.len() {
                assert forall|q: Seq<Seq<char>>| self@.contains(q) implies !is_prefix(q, file@) by {
                    if is_prefix(q, file@) {
                        assert(self@.contains(file@.take(q.len() as int)));
                    }
                }
                return false;
            }
            prefix = prefix.join(&components[i]);
            assert(file@.take(i + 1) =~= file@.take(i as int).push(components@[i as int]@));
            i = i + 1;
        }
    }

    fn visit(&self, dir: &RepoPath) -> (r: Visit) {
        proof {
            use_type_invariant(self);
        }
        if self.matches(dir) {
            Visit::AllRecursively
        } else {
            let dirs = self.dirs.get_dirs(dir);
            let files = self.dirs.get_files(dir);
            Visit::Specific { dirs: VisitDirs::Only(dirs), files: VisitFiles::Only(files) }
        }
    }
}


/// `NothingMatcher` matches a file exactly when a traversal from the root
/// that follows its `visit` hints reaches the file: never.
pub proof fn lemma_nothing_matcher_walk(m: &NothingMatcher, file: Seq<Seq<char>>)
    requires
        file.len() > 0,
    ensures
        m.spec_matches(file) == walk_reaches(m, file, 0),
{
}

/// `EverythingMatcher` matches a file exactly when a traversal from the root
/// that follows its `visit` hints reaches the file: always.
pub proof fn lemma_everything_matcher_walk(m: &EverythingMatcher, file: Seq<Seq<char>>)
    requires
        file.len() > 0,
    ensures
        m.spec_matches(file) == walk_reaches(m, file, 0),
{
}

/// A `FilesMatcher` matches a file exactly when a traversal from the root
/// that follows its `visit` hints reaches the file.
pub proof fn lemma_files_matcher_walk(m: &FilesMatcher, file: Seq<Seq<char>>)
    requires
        file.len() > 0,
    ensures
        m.spec_matches(file) == walk_reaches(m, file, 0),
{
    lemma_files_walk_from(m, file, 0);
}

proof fn lemma_files_walk_from(m: &FilesMatcher, file: Seq<Seq<char>>, depth: int)
    requires
        0 <= depth < file.len(),
    ensures
        walk_reaches(m, file, depth) == m@.contains(file),
    decreases file.len() - depth,
{
    let dir = file.take(depth);
    if depth == file.len() - 1 {
        if m@.contains(file) {
            assert(file.drop_last() =~= dir);
            assert(basenames_in(m@, dir).contains(file[depth]));
        }
        if basenames_in(m@, dir).contains(file[depth]) {
            let g = choose|g: Seq<Seq<char>>| #[trigger]
                m@.contains(g) && g.len() > 0 && g.drop_last() == dir && g.last() == file[depth];
            assert forall|i: int| 0 <= i < depth implies g[i] == file[i] by {
                assert(g[i] == g.drop_last()[i]);
            }
            assert(g =~= file);
        }
    } else {
        lemma_files_walk_from(m, file, depth + 1);
        if m@.contains(file) {
            assert(file.drop_last().take(depth) =~= dir);
            assert(step_toward(dir, file.drop_last()).contains(file[depth]));
            assert(subdirs_toward_files(m@, dir).contains(file[depth]));
        }
    }
}

/// A `PrefixMatcher` matches a file exactly when a traversal from the root
/// that follows its `visit` hints reaches the file.
pub proof fn lemma_prefix_matcher_walk(m: &PrefixMatcher, file: Seq<Seq<char>>)
    requires
        file.len() > 0,
    ensures
        m.spec_matches(file) == walk_reaches(m, file, 0),
{
    lemma_prefix_walk_from(m, file, 0);
}

proof fn lemma_prefix_walk_from(m: &PrefixMatcher, file: Seq<Seq<char>>, depth: int)
    requires
        0 <= depth < file.len(),
    ensures
        walk_reaches(m, file, depth) == under_some_prefix(m@, file),
    decreases file.len() - depth,
{
    let dir = file.take(depth);
    if under_some_prefix(m@, dir) {
        let q = choose|q: Seq<Seq<char>>| #[trigger] m@.contains(q) && is_prefix(q, dir);
        assert(file.take(q.len() as int) =~= dir.take(q.len() as int));
        assert(is_prefix(q, file));
    } else {
        if under_some_prefix(m@, file) {
            let q = choose|q: Seq<Seq<char>>| #[trigger] m@.contains(q) && is_prefix(q, file);
            if q.len() <= depth {
                assert(dir.take(q.len() as int) =~= file.take(q.len() as int));
                assert(is_prefix(q, dir));
            }
        }
        if depth == file.len() - 1 {
            if under_some_prefix(m@, file) {
                let q = choose|q: Seq<Seq<char>>| #[trigger] m@.contains(q) && is_prefix(q, file);
                assert(q =~= file);
                assert(file.drop_last() =~= dir);
                assert(basenames_in(m@, dir).contains(file[depth]));
            }
            if basenames_in(m@, dir).contains(file[depth]) {
                let g = choose|g: Seq<Seq<char>>| #[trigger]
                    m@.contains(g) && g.len() > 0 && g.drop_last() == dir && g.last()
                        == file[depth];
                assert forall|i: int| 0 <= i < depth implies g[i] == file[i] by {
                    assert(g[i] == g.drop_last()[i]);
                }
                assert(g =~= file);
                assert(file.take(file.len() as int) =~= file);
                assert(is_prefix(g, file));
            }
        } else {
            lemma_prefix_walk_from(m, file, depth + 1);
            if under_some_prefix(m@, file) {
                let q = choose|q: Seq<Seq<char>>| #[trigger] m@.contains(q) && is_prefix(q, file);
                assert(q.take(depth) =~= dir);
                assert(q[depth] == file[depth]);
                assert(step_toward(dir, q).contains(file[depth]));
                assert(subdirs_toward(m@, dir).contains(file[depth]));
            }
        }
    }
}

} // verus!
