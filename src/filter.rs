use vstd::prelude::*;
use crate::component::ComponentId;

verus! {

/// A predicate over the set of component types of a layout.
pub trait LayoutFilter {
    spec fn spec_matches(&self, layout: Set<ComponentId>) -> bool;

    fn matches(&self, components: &[ComponentId]) -> (r: bool)
        ensures
            r == self.spec_matches(components@.to_set()),
    ;
}

/// Matches every layout.
pub struct Any;

/// Matches layouts that both filters match.
pub struct And<A, B>(pub A, pub B);

/// Matches layouts that either filter matches.
pub struct Or<A, B>(pub A, pub B);

/// Matches layouts that the inner filter does not match.
pub struct Not<F>(pub F);

/// Matches layouts that hold one component type.
pub struct Component(pub ComponentId);

impl LayoutFilter for Any {
    open spec fn spec_matches(&self, layout: Set<ComponentId>) -> bool {
        true
    }

    fn matches(&self, components: &[ComponentId]) -> (r: bool) {
        true
    }
}

impl<A: LayoutFilter, B: LayoutFilter> LayoutFilter for And<A, B> {
    open spec fn spec_matches(&self, layout: Set<ComponentId>) -> bool {
        self.0.spec_matches(layout) && self.1.spec_matches(layout)
    }

    fn matches(&self, components: &[ComponentId]) -> (r: bool) {
        self.0.matches(components) && self.1.matches(components)
    }
}

impl<A: LayoutFilter, B: LayoutFilter> LayoutFilter for Or<A, B> {
    open spec fn spec_matches(&self, layout: Set<ComponentId>) -> bool {
        self.0.spec_matches(layout) || self.1.spec_matches(layout)
    }

    fn matches(&self, components: &[ComponentId]) -> (r: bool) {
        self.0.matches(components) || self.1.matches(components)
    }
}

impl<F: LayoutFilter> LayoutFilter for Not<F> {
    open spec fn spec_matches(&self, layout: Set<ComponentId>) -> bool {
        !self.0.spec_matches(layout)
    }

    fn matches(&self, components: &[ComponentId]) -> (r: bool) {
        !self.0.matches(components)
    }
}

impl LayoutFilter for Component {
    open spec fn spec_matches(&self, layout: Set<ComponentId>) -> bool {
        layout.contains(self.0)
    }

    fn matches(&self, components: &[ComponentId]) -> (r: bool) {
        let mut i: usize = 0;
        while i < components.len()
            invariant
                i <= components@.len(),
                forall|j: int| 0 <= j < i ==> components@[j] != self.0,
            decreases components@.len() - i,
        {
            if components[i] == self.0 {
                proof {
                    assert(components@.to_set().contains(components@[i as int]));
                }
                return true;
            }
            i += 1;
        }
        proof {
            assert(!components@.contains(self.0));
        }
        false
    }
}

} // verus!
