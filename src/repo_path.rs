//! Repository-relative paths: ordered sequences of non-empty components,
//! with the empty sequence as the root.

use vstd::prelude::*;

verus! {

/// A component may be any non-empty string without the separator `/`.
pub open spec fn is_valid_component(c: Seq<char>) -> bool {
    c.len() > 0 && !c.contains('/')
}

/// The internal string form of a path: its components joined by `/`.
pub open spec fn join_components(cs: Seq<Seq<char>>) -> Seq<char>
    decreases cs.len(),
{
    if cs.len() == 0 {
        Seq::empty()
    } else if cs.len() == 1 {
        cs[0]
    } else {
        join_components(cs.drop_last()) + seq!['/'] + cs.last()
    }
}

/// A string in internal path form: empty for the root, otherwise non-empty
/// components separated by single slashes, with none leading or trailing.
pub open spec fn is_internal_path_string(s: Seq<char>) -> bool {
    s.len() == 0 || {
        &&& s[0] != '/'
        &&& s.last() != '/'
        &&& forall|i: int| 0 <= i < s.len() - 1 && #[trigger] s[i] == '/' ==> s[i + 1] != '/'
    }
}

/// `prefix` is an ancestor of `path`, or `path` itself.
pub open spec fn is_prefix(prefix: Seq<Seq<char>>, path: Seq<Seq<char>>) -> bool {
    prefix.len() <= path.len() && path.take(prefix.len() as int) == prefix
}

proof fn lemma_join_push(cs: Seq<Seq<char>>, x: Seq<char>)
    ensures
        join_components(cs.push(x)) == if cs.len() == 0 {
            x
        } else {
            join_components(cs) + seq!['/'] + x
        },
{
    assert(cs.push(x).drop_last() =~= cs);
}

/// One component of a repository path.
#[derive(Debug)]
pub struct RepoPathComponent {
    value: String,
}

impl RepoPathComponent {
    #[verifier::type_invariant]
    spec fn wf(self) -> bool {
        is_valid_component(self.value@)
    }

    /// The component spelled by `value`.
    pub fn from(value: &str) -> (r: RepoPathComponent)
        requires
            is_valid_component(value@),
        ensures
            r@ == value@,
    {
        RepoPathComponent { value: value.to_owned() }
    }
}

impl View for RepoPathComponent {
    type V = Seq<char>;

    closed spec fn view(&self) -> Seq<char> {
        self.value@
    }
}

impl Clone for RepoPathComponent {
    fn clone(&self) -> (r: Self)
        ensures
            r@ == self@,
    {
        proof {
            use_type_invariant(self);
        }
        RepoPathComponent { value: self.value.clone() }
    }
}

impl PartialEq for RepoPathComponent {
    fn eq(&self, other: &Self) -> (r: bool)
        ensures
            r == (self@ == other@),
    {
        self.value == other.value
    }
}

impl vstd::std_specs::cmp::PartialEqSpecImpl for RepoPathComponent {
    open spec fn obeys_eq_spec() -> bool {
        true
    }

    open spec fn eq_spec(&self, other: &Self) -> bool {
        self@ == other@
    }
}

impl Eq for RepoPathComponent {

}

/// The abstract value of a list of components.
pub open spec fn component_views(cs: Seq<RepoPathComponent>) -> Seq<Seq<char>> {
    cs.map_values(|c: RepoPathComponent| c@)
}

/// A path relative to the repository root.
#[derive(Debug)]
pub struct RepoPath {
    components: Vec<RepoPathComponent>,
}

impl View for RepoPath {
    type V = Seq<Seq<char>>;

    closed spec fn view(&self) -> Seq<Seq<char>> {
        component_views(self.components@)
    }
}

impl RepoPath {
    /// The root of the repository: the path with no components.
    pub fn root() -> (r: RepoPath)
        ensures
            r@ == Seq::<Seq<char>>::empty(),
    {
        let r = RepoPath { components: Vec::new() };
        assert(r@ =~= Seq::<Seq<char>>::empty());
        r
    }

    /// The path made of `components`, in order.
    pub fn from_components(components: Vec<RepoPathComponent>) -> (r: RepoPath)
        ensures
            r@ == component_views(components@),
    {
        RepoPath { components }
    }

    /// Parses the internal form, in which `/` separates the components.
    pub fn from_internal_string(value: &str) -> (r: RepoPath)
        requires
            is_internal_path_string(value@),
        ensures
            join_components(r@) == value@,
            r@.len() == 0 <==> value@.len() == 0,
            forall|i: int| 0 <= i < r@.len() ==> is_valid_component(#[trigger] r@[i]),
    {
        let n = value.unicode_len();
        let mut components: Vec<RepoPathComponent> = Vec::new();
        if n == 0 {
            let r = RepoPath { components };
            assert(r@ =~= Seq::<Seq<char>>::empty());
            return r;
        }
        let mut start: usize = 0;
        let mut i: usize = 0;
        assert(value@.subrange(0, 0) =~= value@.take(0));
        while i < n
            invariant
                n == value@.len(),
                0 < n,
                start <= i <= n,
                is_internal_path_string(value@),
                start == 0 || value@[start - 1] == '/',
                forall|k: int| start <= k < i ==> value@[k] != '/',
                forall|k: int|
                    0 <= k < components@.len() ==> is_valid_component(
                        #[trigger] component_views(components@)[k],
                    ),
                join_components(component_views(components@).push(value@.subrange(start as int, i as int)))
                    == value@.take(i as int),
            decreases n - i,
        {
            let c = value.get_char(i);
            let ghost cs = component_views(components@);
            let ghost cur = value@.subrange(start as int, i as int);
            if c == '/' {
                let piece = value.substring_char(start, i);
                assert(!piece@.contains('/')) by {
                    assert forall|k: int| 0 <= k < piece@.len() implies piece@[k] != '/' by {
                        assert(piece@[k] == value@[start + k]);
                    }
                }
                let component = RepoPathComponent { value: piece.to_owned() };
                components.push(component);
                start = i + 1;
                proof {
                    assert(component_views(components@) =~= cs.push(cur));
                    lemma_join_push(cs.push(cur), Seq::empty());
                    assert(value@.subrange(start as int, start as int) =~= Seq::<char>::empty());
                    assert(value@.take(i + 1) =~= value@.take(i as int) + seq!['/']);
                    assert(cs.push(cur).len() > 0);
                    assert(join_components(cs.push(cur)) + seq!['/'] + Seq::<char>::empty() =~= value@.take(i as int) + seq!['/']);
                }
            } else {
                proof {
                    let next = value@.subrange(start as int, i + 1);
                    assert(next =~= cur.push(c));
                    lemma_join_push(cs, cur);
                    lemma_join_push(cs, next);
                    assert(value@.take(i + 1) =~= value@.take(i as int).push(c));
                    if cs.len() > 0 {
                        assert(join_components(cs) + seq!['/'] + next =~= (join_components(cs) + seq!['/'] + cur).push(c));
                    }
                }
            }
            i = i + 1;
        }
        let piece = value.substring_char(start, n);
        assert(!piece@.contains('/')) by {
            assert forall|k: int| 0 <= k < piece@.len() implies piece@[k] != '/' by {
                assert(piece@[k] == value@[start + k]);
            }
        }
        let ghost cs = component_views(components@);
        let component = RepoPathComponent { value: piece.to_owned() };
        components.push(component);
        let r = RepoPath { components };
        proof {
            assert(r@ =~= cs.push(value@.subrange(start as int, n as int)));
            assert(value@.take(n as int) =~= value@);
        }
        r
    }

    /// Whether this is the root.
    pub fn is_root(&self) -> (r: bool)
        ensures
            r == (self@.len() == 0),
    {
        self.components.len() == 0
    }

    /// The components, outermost first.
    pub fn components(&self) -> (r: &Vec<RepoPathComponent>)
        ensures
            component_views(r@) == self@,
    {
        &self.components
    }

    /// The path of the entry `entry` inside this directory.
    pub fn join(&self, entry: &RepoPathComponent) -> (r: RepoPath)
        ensures
            r@ == self@.push(entry@),
    {
        let mut components = clone_components(&self.components, self.components.len());
        let ghost prev = components@;
        let e = entry.clone();
        components.push(e);
        let r = RepoPath { components };
        assert(self@.take(self@.len() as int) =~= self@);
        assert(r@ =~= component_views(prev).push(e@));
        r
    }

    /// The parent directory and the base name; `None` for the root.
    pub fn split(&self) -> (r: Option<(RepoPath, RepoPathComponent)>)
        ensures
            match r {
                Some((parent, base)) => {
                    &&& self@.len() > 0
                    &&& parent@ == self@.drop_last()
                    &&& base@ == self@.last()
                },
                None => self@.len() == 0,
            },
    {
        let n = self.components.len();
        if n == 0 {
            return None;
        }
        let parent = RepoPath { components: clone_components(&self.components, n - 1) };
        let base = self.components[n - 1].clone();
        assert(parent@ =~= self@.drop_last());
        Some((parent, base))
    }
}

/// Copies of the first `n` of `components`.
pub(crate) fn clone_components(components: &Vec<RepoPathComponent>, n: usize) -> (r: Vec<RepoPathComponent>)
    requires
        n <= components@.len(),
    ensures
        component_views(r@) == component_views(components@).take(n as int),
{
    let mut r: Vec<RepoPathComponent> = Vec::new();
    let mut i: usize = 0;
    while i < n
        invariant
            i <= n <= components@.len(),
            component_views(r@) == component_views(components@).take(i as int),
        decreases n - i,
    {
        let ghost prev = r@;
        let c = components[i].clone();
        r.push(c);
        proof {
            assert(component_views(r@) =~= component_views(prev).push(c@));
            assert(component_views(components@).take(i + 1) =~= component_views(components@).take(
                i as int,
            ).push(components@[i as int]@));
        }
        i = i + 1;
    }
    r
}

impl Clone for RepoPath {
    fn clone(&self) -> (r: Self)
        ensures
            r@ == self@,
    {
        let r = RepoPath { components: clone_components(&self.components, self.components.len()) };
        assert(r@ =~= self@);
        r
    }
}

impl PartialEq for RepoPath {
    fn eq(&self, other: &Self) -> (r: bool)
        ensures
            r == (self@ == other@),
    {
        let n = self.components.len();
        if n != other.components.len() {
            assert(self@.len() != other@.len());
            return false;
        }
        let mut i: usize = 0;
        while i < n
            invariant
                n == self@.len() == other@.len(),
                i <= n,
                forall|k: int| 0 <= k < i ==> self@[k] == other@[k],
            decreases n - i,
        {
            if self.components[i] != other.components[i] {
                assert(self@[i as int] != other@[i as int]);
                return false;
            }
            i = i + 1;
        }
        assert(self@ =~= other@);
        true
    }
}

impl vstd::std_specs::cmp::PartialEqSpecImpl for RepoPath {
    open spec fn obeys_eq_spec() -> bool {
        true
    }

    open spec fn eq_spec(&self, other: &Self) -> bool {
        self@ == other@
    }
}

impl Eq for RepoPath {

}

} // verus!
