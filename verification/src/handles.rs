//! The handles that callers hold: to bindings, borrows, scopes and views.

use vstd::prelude::*;

verus! {

/// A binding, by its declaration order.
#[derive(Clone, Copy, Debug, PartialEq, Eq, Structural)]
pub struct BindingId(pub usize);

/// A borrow, by the order in which borrows were taken.
#[derive(Clone, Copy, Debug, PartialEq, Eq, Structural)]
pub struct BorrowId(pub usize);

/// A scope, by the order in which scopes were entered.
#[derive(Clone, Copy, Debug, PartialEq, Eq, Structural)]
pub struct ScopeId(pub usize);

/// A read-only window `[start, end)` over the resource of a binding. It owns
/// nothing: it is a shared borrow, and reading through it goes through the
/// tracker.
#[derive(Clone, Copy, Debug, PartialEq, Eq, Structural)]
pub struct SliceView {
    borrow: usize,
    binding: usize,
    start: usize,
    end: usize,
}

impl SliceView {
    #[verifier::type_invariant]
    spec fn ordered(self) -> bool {
        self.start <= self.end
    }

    pub closed spec fn spec_borrow(self) -> int {
        self.borrow as int
    }

    pub closed spec fn spec_binding(self) -> int {
        self.binding as int
    }

    pub closed spec fn spec_start(self) -> int {
        self.start as int
    }

    pub closed spec fn spec_end(self) -> int {
        self.end as int
    }

    pub(crate) fn new(borrow: usize, binding: usize, start: usize, end: usize) -> (v: SliceView)
        requires
            start <= end,
        ensures
            v.spec_borrow() == borrow,
            v.spec_binding() == binding,
            v.spec_start() == start,
            v.spec_end() == end,
    {
        SliceView { borrow, binding, start, end }
    }

    /// The borrow that the view is.
    pub fn borrow(&self) -> (id: BorrowId)
        ensures
            id.0 == self.spec_borrow(),
    {
        BorrowId(self.borrow)
    }

    /// The binding whose resource the view looks at.
    pub fn binding(&self) -> (id: BindingId)
        ensures
            id.0 == self.spec_binding(),
    {
        BindingId(self.binding)
    }

    pub fn start(&self) -> (start: usize)
        ensures
            start == self.spec_start(),
            start <= self.spec_end(),
    {
        proof {
            use_type_invariant(self);
        }
        self.start
    }

    pub fn end(&self) -> (end: usize)
        ensures
            end == self.spec_end(),
            self.spec_start() <= end,
    {
        proof {
            use_type_invariant(self);
        }
        self.end
    }

    /// The number of bytes in the window.
    pub fn length(&self) -> (n: usize)
        ensures
            n == self.spec_end() - self.spec_start(),
    {
        proof {
            use_type_invariant(self);
        }
        self.end - self.start
    }
}

} // verus!
