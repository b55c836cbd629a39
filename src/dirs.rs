//! The directories and files that a traversal must visit to reach a chosen
//! set of paths.

use vstd::prelude::*;

use crate::component_set::ComponentSet;
use crate::repo_path::{is_prefix, RepoPath, RepoPathComponent};

verus! {

/// The one-element set of the component in `c`, or the empty set.
pub open spec fn option_set(c: Option<RepoPathComponent>) -> Set<Seq<char>> {
    match c {
        Some(x) => set![x@],
        None => Set::empty(),
    }
}

/// The next component on the way from `dir` down to `target`, where `dir` is
/// a proper ancestor of `target`; otherwise nothing.
pub open spec fn step_toward(dir: Seq<Seq<char>>, target: Seq<Seq<char>>) -> Set<Seq<char>> {
    if dir.len() < target.len() && is_prefix(dir, target) {
        set![target[dir.len() as int]]
    } else {
        Set::empty()
    }
}

/// Sets of components keyed by path, each key present once.
struct PathMap {
    keys: Vec<RepoPath>,
    values: Vec<ComponentSet>,
}

impl PathMap {
    spec fn wf(&self) -> bool {
        &&& self.keys@.len() == self.values@.len()
        &&& forall|i: int, j: int|
            0 <= i < self.keys@.len() && 0 <= j < self.keys@.len() && i != j
                ==> #[trigger] self.keys@[i]@ != #[trigger] self.keys@[j]@
    }

    spec fn has(&self, k: Seq<Seq<char>>) -> bool {
        exists|i: int| 0 <= i < self.keys@.len() && #[trigger] self.keys@[i]@ == k
    }

    /// The set under `k`, empty where `k` is absent.
    spec fn at(&self, k: Seq<Seq<char>>) -> Set<Seq<char>> {
        Set::new(
            |c: Seq<char>|
                exists|i: int|
                    0 <= i < self.keys@.len() && #[trigger] self.keys@[i]@ == k
                        && self.values@[i]@.contains(c),
        )
    }

    proof fn lemma_at_index(&self, i: int)
        requires
            self.wf(),
            0 <= i < self.keys@.len(),
        ensures
            self.has(self.keys@[i]@),
            self.at(self.keys@[i]@) == self.values@[i]@,
    {
        assert(self.at(self.keys@[i]@) =~= self.values@[i]@);
    }

    proof fn lemma_at_absent(&self, k: Seq<Seq<char>>)
        requires
            !self.has(k),
        ensures
            self.at(k) == Set::<Seq<char>>::empty(),
    {
        assert(self.at(k) =~= Set::<Seq<char>>::empty());
    }

    fn new() -> (r: PathMap)
        ensures
            r.wf(),
            forall|k: Seq<Seq<char>>| !#[trigger] r.has(k),
            forall|k: Seq<Seq<char>>| #[trigger] r.at(k) == Set::<Seq<char>>::empty(),
    {
        let r = PathMap { keys: Vec::new(), values: Vec::new() };
        assert forall|k: Seq<Seq<char>>| #[trigger] r.at(k) == Set::<Seq<char>>::empty() by {
            r.lemma_at_absent(k);
        }
        r
    }

    fn find(&self, k: &RepoPath) -> (r: Option<usize>)
        requires
            self.wf(),
        ensures
            match r {
                Some(i) => i < self.keys@.len() && self.keys@[i as int]@ == k@,
                None => !self.has(k@),
            },
    {
        let mut i: usize = 0;
        while i < self.keys.len()
            invariant
                i <= self.keys@.len(),
                forall|j: int| 0 <= j < i ==> self.keys@[j]@ != k@,
            decreases self.keys@.len() - i,
        {
            if self.keys[i] == *k {
                return Some(i);
            }
            i = i + 1;
        }
        None
    }

    fn get(&self, k: &RepoPath) -> (r: ComponentSet)
        requires
            self.wf(),
        ensures
            r@ == self.at(k@),
    {
        match self.find(k) {
            Some(i) => {
                proof {
                    self.lemma_at_index(i as int);
                }
                self.values[i].clone()
            },
            None => {
                proof {
                    self.lemma_at_absent(k@);
                }
                ComponentSet::new()
            },
        }
    }

    /// Makes sure that `k` is present, and adds the component in `c` to its set.
    fn add(&mut self, k: &RepoPath, c: Option<RepoPathComponent>)
        requires
            old(self).wf(),
        ensures
            final(self).wf(),
            forall|k2: Seq<Seq<char>>| #[trigger]
                final(self).has(k2) == (old(self).has(k2) || k2 == k@),
            forall|k2: Seq<Seq<char>>| #[trigger]
                final(self).at(k2) == if k2 == k@ {
                    old(self).at(k2).union(option_set(c))
                } else {
                    old(self).at(k2)
                },
    {
        let ghost c0 = c;
        match self.find(k) {
            Some(i) => {
                proof {
                    old(self).lemma_at_index(i as int);
                }
                match c {
                    Some(x) => {
                        self.values[i].insert(x);
                    },
                    None => {},
                }
                proof {
                    assert(self.values@[i as int]@ =~= old(self).values@[i as int]@.union(
                        option_set(c0),
                    ));
                    assert forall|k2: Seq<Seq<char>>| #[trigger]
                        self.has(k2) == (old(self).has(k2) || k2 == k@) by {
                        if self.has(k2) {
                            let j = choose|j: int|
                                0 <= j < self.keys@.len() && #[trigger] self.keys@[j]@ == k2;
                            assert(old(self).keys@[j]@ == k2);
                        }
                        if old(self).has(k2) {
                            let j = choose|j: int|
                                0 <= j < old(self).keys@.len() && #[trigger] old(self).keys@[j]@
                                    == k2;
                            assert(self.keys@[j]@ == k2);
                        }
                    }
                    assert forall|k2: Seq<Seq<char>>| #[trigger]
                        self.at(k2) == if k2 == k@ {
                            old(self).at(k2).union(option_set(c0))
                        } else {
                            old(self).at(k2)
                        } by {
                        if k2 == k@ {
                            self.lemma_at_index(i as int);
                        } else if old(self).has(k2) {
                            let j = choose|j: int|
                                0 <= j < old(self).keys@.len() && #[trigger] old(self).keys@[j]@
                                    == k2;
                            old(self).lemma_at_index(j);
                            self.lemma_at_index(j);
                        } else {
                            old(self).lemma_at_absent(k2);
                            self.lemma_at_absent(k2);
                        }
                    }
                }
            },
            None => {
                let mut s = ComponentSet::new();
                match c {
                    Some(x) => {
                        s.insert(x);
                    },
                    None => {},
                }
                assert(s@ =~= option_set(c0));
                let key = k.clone();
                self.keys.push(key);
                self.values.push(s);
                proof {
                    let n = old(self).keys@.len() as int;
                    assert(self.keys@[n]@ == k@);
                    assert forall|i: int, j: int|
                        0 <= i < self.keys@.len() && 0 <= j < self.keys@.len() && i != j
                            implies #[trigger] self.keys@[i]@ != #[trigger] self.keys@[j]@ by {
                        if i < n && j < n {
                            assert(old(self).keys@[i] == self.keys@[i]);
                            assert(old(self).keys@[j] == self.keys@[j]);
                        } else if i < n {
                            assert(old(self).keys@[i] == self.keys@[i]);
                        } else if j < n {
                            assert(old(self).keys@[j] == self.keys@[j]);
                        }
                    }
                    assert forall|k2: Seq<Seq<char>>| #[trigger]
                        self.has(k2) == (old(self).has(k2) || k2 == k@) by {
                        if self.has(k2) && k2 != k@ {
                            let j = choose|j: int|
                                0 <= j < self.keys@.len() && #[trigger] self.keys@[j]@ == k2;
                            assert(old(self).keys@[j]@ == k2);
                        }
                        if old(self).has(k2) {
                            let j = choose|j: int|
                                0 <= j < old(self).keys@.len() && #[trigger] old(self).keys@[j]@
                                    == k2;
                            assert(self.keys@[j]@ == k2);
                        }
                    }
                    assert forall|k2: Seq<Seq<char>>| #[trigger]
                        self.at(k2) == if k2 == k@ {
                            old(self).at(k2).union(option_set(c0))
                        } else {
                            old(self).at(k2)
                        } by {
                        if k2 == k@ {
                            self.lemma_at_index(n);
                            old(self).lemma_at_absent(k2);
                            assert(Set::<Seq<char>>::empty().union(option_set(c0)) =~= option_set(
                                c0,
                            ));
                        } else if old(self).has(k2) {
                            let j = choose|j: int|
                                0 <= j < old(self).keys@.len() && #[trigger] old(self).keys@[j]@
                                    == k2;
                            old(self).lemma_at_index(j);
                            assert(self.keys@[j] == old(self).keys@[j]);
                            self.lemma_at_index(j);
                        } else {
                            old(self).lemma_at_absent(k2);
                            self.lemma_at_absent(k2);
                        }
                    }
                }
            },
        }
    }
}

/// Keeps track of which subdirectories and files of each directory need to be
/// visited.
pub struct Dirs {
    dirs: PathMap,
    files: PathMap,
}

impl Dirs {
    /// The maps are well formed, and every directory recorded below the root
    /// is recorded as a subdirectory of its recorded parent.
    pub closed spec fn wf(&self) -> bool {
        &&& self.dirs.wf()
        &&& self.files.wf()
        &&& forall|k: Seq<Seq<char>>|
            #[trigger] self.dirs.has(k) && k.len() > 0 ==> {
                &&& self.dirs.has(k.drop_last())
                &&& self.dirs.at(k.drop_last()).contains(k.last())
            }
    }

    /// The subdirectories of `dir` to visit.
    pub closed spec fn dirs_in(&self, dir: Seq<Seq<char>>) -> Set<Seq<char>> {
        self.dirs.at(dir)
    }

    /// The files directly in `dir` to visit.
    pub closed spec fn files_in(&self, dir: Seq<Seq<char>>) -> Set<Seq<char>> {
        self.files.at(dir)
    }

    proof fn lemma_ancestors(&self, k: Seq<Seq<char>>, i: int)
        requires
            self.wf(),
            self.dirs.has(k),
            0 <= i < k.len(),
        ensures
            self.dirs.has(k.take(i)),
            self.dirs.at(k.take(i)).contains(k[i]),
        decreases k.len(),
    {
        let p = k.drop_last();
        if i == k.len() - 1 {
            assert(k.take(i) =~= p);
        } else {
            self.lemma_ancestors(p, i);
            assert(p.take(i) =~= k.take(i));
        }
    }

    /// Nothing to visit anywhere.
    pub fn new() -> (r: Dirs)
        ensures
            r.wf(),
            forall|d: Seq<Seq<char>>| #[trigger] r.dirs_in(d) == Set::<Seq<char>>::empty(),
            forall|d: Seq<Seq<char>>| #[trigger] r.files_in(d) == Set::<Seq<char>>::empty(),
    {
        Dirs { dirs: PathMap::new(), files: PathMap::new() }
    }

    /// Records `dir` as a directory to visit: each proper ancestor of it gets
    /// the next component toward it as a subdirectory.
    pub fn add_dir(&mut self, dir: &RepoPath)
        requires
            old(self).wf(),
        ensures
            final(self).wf(),
            forall|d: Seq<Seq<char>>| #[trigger]
                final(self).dirs_in(d) == old(self).dirs_in(d).union(step_toward(d, dir@)),
            forall|d: Seq<Seq<char>>| #[trigger] final(self).files_in(d) == old(self).files_in(d),
    {
        let ghost x = dir@;
        let ghost before = *self;
        let mut cur = dir.clone();
        let mut maybe_child: Option<RepoPathComponent> = None;
        let ghost mut j: int = x.len() as int;
        assert(x.take(j) =~= x);
        loop
            invariant_except_break
                forall|k: Seq<Seq<char>>| #[trigger]
                    self.dirs.has(k) == (before.dirs.has(k) || (is_prefix(k, x) && k.len() > j)),
                forall|k: Seq<Seq<char>>| #[trigger]
                    self.dirs.at(k) == before.dirs.at(k).union(
                        if is_prefix(k, x) && j < k.len() < x.len() {
                            set![x[k.len() as int]]
                        } else {
                            Set::empty()
                        },
                    ),
            invariant
                before == *old(self),
                before.wf(),
                0 <= j <= x.len(),
                cur@ == x.take(j),
                match maybe_child {
                    Some(c) => j < x.len() && c@ == x[j],
                    None => j == x.len(),
                },
                self.dirs.wf(),
                self.files == before.files,
                forall|i: int| j < i <= x.len() ==> !before.dirs.has(#[trigger] x.take(i)),
            ensures
                self.wf(),
                forall|d: Seq<Seq<char>>| #[trigger]
                    self.dirs_in(d) == before.dirs_in(d).union(step_toward(d, x)),
                forall|d: Seq<Seq<char>>| #[trigger] self.files_in(d) == before.files_in(d),
            decreases j,
        {
            let found = self.dirs.find(&cur);
            let was_present = found.is_some();
            proof {
                match found {
                    Some(i) => {
                        assert(self.dirs.keys@[i as int]@ == cur@);
                        assert(self.dirs.has(cur@));
                    },
                    None => {},
                }
            }
            self.dirs.add(&cur, maybe_child);
            proof {
                assert(x.take(j).len() == j);
                assert forall|k: Seq<Seq<char>>|
                    (k == x.take(j)) == (is_prefix(k, x) && k.len() == j) by {
                    if is_prefix(k, x) && k.len() == j {
                        assert(k =~= x.take(j));
                    }
                }
                assert forall|k: Seq<Seq<char>>| #[trigger]
                    self.dirs.at(k) == before.dirs.at(k).union(
                        if is_prefix(k, x) && j - 1 < k.len() < x.len() {
                            set![x[k.len() as int]]
                        } else {
                            Set::empty()
                        },
                    ) by {
                    if k == x.take(j) {
                        assert(is_prefix(k, x) && k.len() == j);
                        assert(self.dirs.at(k) =~= before.dirs.at(k).union(
                            if is_prefix(k, x) && j - 1 < k.len() < x.len() {
                                set![x[k.len() as int]]
                            } else {
                                Set::empty()
                            },
                        ));
                    }
                }
            }
            if was_present {
                proof {
                    assert(before.dirs.has(x.take(j)));
                    self.lemma_finish_add_dir(before, x, j);
                }
                break;
            }
            match cur.split() {
                None => {
                    proof {
                        self.lemma_finish_add_dir(before, x, j);
                    }
                    break;
                },
                Some((parent, c)) => {
                    proof {
                        assert(x.take(j).drop_last() =~= x.take(j - 1));
                        j = j - 1;
                    }
                    maybe_child = Some(c);
                    cur = parent;
                },
            }
        }
    }

    proof fn lemma_finish_add_dir(&self, before: Dirs, x: Seq<Seq<char>>, j: int)
        requires
            before.wf(),
            0 <= j <= x.len(),
            j == 0 || before.dirs.has(x.take(j)),
            self.dirs.wf(),
            self.files == before.files,
            forall|i: int| j < i <= x.len() ==> !before.dirs.has(#[trigger] x.take(i)),
            forall|k: Seq<Seq<char>>| #[trigger]
                self.dirs.has(k) == (before.dirs.has(k) || (is_prefix(k, x) && k.len() >= j)),
            forall|k: Seq<Seq<char>>| #[trigger]
                self.dirs.at(k) == before.dirs.at(k).union(
                    if is_prefix(k, x) && j - 1 < k.len() < x.len() {
                        set![x[k.len() as int]]
                    } else {
                        Set::empty()
                    },
                ),
        ensures
            self.wf(),
            forall|d: Seq<Seq<char>>| #[trigger]
                self.dirs_in(d) == before.dirs_in(d).union(step_toward(d, x)),
            forall|d: Seq<Seq<char>>| #[trigger] self.files_in(d) == before.files_in(d),
    {
        assert forall|d: Seq<Seq<char>>| #[trigger]
            self.dirs_in(d) == before.dirs_in(d).union(step_toward(d, x)) by {
            if is_prefix(d, x) && d.len() < x.len() && d.len() < j {
                assert(d =~= x.take(j).take(d.len() as int));
                before.lemma_ancestors(x.take(j), d.len() as int);
                assert(x.take(j)[d.len() as int] == x[d.len() as int]);
            }
            assert(self.dirs_in(d) =~= before.dirs_in(d).union(step_toward(d, x)));
        }
        assert forall|k: Seq<Seq<char>>| #[trigger] self.dirs.has(k) && k.len() > 0 implies {
            &&& self.dirs.has(k.drop_last())
            &&& self.dirs.at(k.drop_last()).contains(k.last())
        } by {
            let p = k.drop_last();
            if before.dirs.has(k) {
                assert(before.dirs.has(p));
            } else {
                assert(is_prefix(k, x) && k.len() >= j);
                assert(is_prefix(p, x)) by {
                    assert(x.take(p.len() as int) =~= p);
                }
                assert(k.last() == x[p.len() as int]);
                if k.len() == j {
                    assert(k =~= x.take(j));
                }
            }
        }
    }

    /// Records `file` as a file to visit, and its parent as a directory.
    pub fn add_file(&mut self, file: &RepoPath)
        requires
            old(self).wf(),
            file@.len() > 0,
        ensures
            final(self).wf(),
            forall|d: Seq<Seq<char>>| #[trigger]
                final(self).dirs_in(d) == old(self).dirs_in(d).union(
                    step_toward(d, file@.drop_last()),
                ),
            forall|d: Seq<Seq<char>>| #[trigger]
                final(self).files_in(d) == if d == file@.drop_last() {
                    old(self).files_in(d).insert(file@.last())
                } else {
                    old(self).files_in(d)
                },
    {
        match file.split() {
            Some((dir, basename)) => {
                let ghost base = basename@;
                self.add_dir(&dir);
                let ghost mid = *self;
                self.files.add(&dir, Some(basename));
                proof {
                    assert forall|d: Seq<Seq<char>>| #[trigger]
                        self.files_in(d) == if d == file@.drop_last() {
                            old(self).files_in(d).insert(file@.last())
                        } else {
                            old(self).files_in(d)
                        } by {
                        assert(mid.files_in(d) == old(self).files_in(d));
                        assert(mid.files.at(d) == mid.files_in(d));
                        if d == file@.drop_last() {
                            assert(self.files_in(d) =~= old(self).files_in(d).insert(base));
                        }
                    }
                    assert forall|d: Seq<Seq<char>>| #[trigger]
                        self.dirs_in(d) == old(self).dirs_in(d).union(
                            step_toward(d, file@.drop_last()),
                        ) by {
                        assert(self.dirs == mid.dirs);
                        assert(mid.dirs_in(d) == old(self).dirs_in(d).union(step_toward(d, dir@)));
                    }
                }
            },
            None => {},
        }
    }

    /// The subdirectories of `dir` to visit.
    pub fn get_dirs(&self, dir: &RepoPath) -> (r: ComponentSet)
        requires
            self.wf(),
        ensures
            r@ == self.dirs_in(dir@),
    {
        self.dirs.get(dir)
    }

    /// The files directly in `dir` to visit.
    pub fn get_files(&self, dir: &RepoPath) -> (r: ComponentSet)
        requires
            self.wf(),
        ensures
            r@ == self.files_in(dir@),
    {
        self.files.get(dir)
    }
}

} // verus!
