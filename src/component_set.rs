//! Sets of path components.

use vstd::prelude::*;

use crate::repo_path::{clone_components, component_views, RepoPathComponent};

verus! {

/// A set of path components.
#[derive(Debug)]
pub struct ComponentSet {
    items: Vec<RepoPathComponent>,
}

impl View for ComponentSet {
    type V = Set<Seq<char>>;

    closed spec fn view(&self) -> Set<Seq<char>> {
        component_views(self.items@).to_set()
    }
}

impl ComponentSet {
    /// The empty set.
    pub fn new() -> (r: ComponentSet)
        ensures
            r@ == Set::<Seq<char>>::empty(),
    {
        let r = ComponentSet { items: Vec::new() };
        assert(r@ =~= Set::<Seq<char>>::empty());
        r
    }

    /// Whether `c` is a member.
    pub fn contains(&self, c: &RepoPathComponent) -> (r: bool)
        ensures
            r == self@.contains(c@),
    {
        let mut i: usize = 0;
        while i < self.items.len()
            invariant
                i <= self.items@.len(),
                forall|k: int| 0 <= k < i ==> self.items@[k]@ != c@,
            decreases self.items@.len() - i,
        {
            if self.items[i] == *c {
                assert(component_views(self.items@)[i as int] == c@);
                return true;
            }
            i = i + 1;
        }
        assert(!component_views(self.items@).contains(c@));
        false
    }

    /// Adds `c`; a member already present is kept once.
    pub fn insert(&mut self, c: RepoPathComponent)
        ensures
            final(self)@ == old(self)@.insert(c@),
    {
        if !self.contains(&c) {
            let ghost prev = self.items@;
            self.items.push(c);
            proof {
                assert(component_views(self.items@) =~= component_views(prev).push(c@));
                component_views(prev).lemma_push_to_set_commute(c@);
            }
        } else {
            assert(self@ =~= old(self)@.insert(c@));
        }
    }

    /// Whether every member of this set is a member of `other`.
    pub fn is_subset_of(&self, other: &ComponentSet) -> (r: bool)
        ensures
            r == self@.subset_of(other@),
    {
        let mut i: usize = 0;
        while i < self.items.len()
            invariant
                i <= self.items@.len(),
                forall|k: int| 0 <= k < i ==> other@.contains(#[trigger] self.items@[k]@),
            decreases self.items@.len() - i,
        {
            if !other.contains(&self.items[i]) {
                assert(component_views(self.items@)[i as int] == self.items@[i as int]@);
                return false;
            }
            i = i + 1;
        }
        assert forall|c: Seq<char>| self@.contains(c) implies other@.contains(c) by {
            let k = choose|k: int| 0 <= k < self.items@.len() && component_views(self.items@)[k] == c;
            assert(self.items@[k]@ == c);
        }
        true
    }
}

impl Clone for ComponentSet {
    fn clone(&self) -> (r: Self)
        ensures
            r@ == self@,
    {
        let r = ComponentSet { items: clone_components(&self.items, self.items.len()) };
        assert(component_views(self.items@).take(self.items@.len() as int) =~= component_views(self.items@));
        r
    }
}

impl PartialEq for ComponentSet {
    fn eq(&self, other: &Self) -> (r: bool)
        ensures
            r == (self@ == other@),
    {
        let r = self.is_subset_of(other) && other.is_subset_of(self);
        if r {
            assert(self@ =~= other@);
        }
        r
    }
}

impl vstd::std_specs::cmp::PartialEqSpecImpl for ComponentSet {
    open spec fn obeys_eq_spec() -> bool {
        true
    }

    open spec fn eq_spec(&self, other: &Self) -> bool {
        self@ == other@
    }
}

impl Eq for ComponentSet {

}

} // verus!
