//! The tracker: value table, scope stack and borrow table, with the
//! operations on them.

use vstd::prelude::*;
use crate::error::OwnershipError;
use crate::handles::{BindingId, BorrowId, ScopeId, SliceView};
use crate::lemmas::{
    lemma_allocate_wf, lemma_assign_wf, lemma_borrow_error_is_current, lemma_borrow_in_wf,
    lemma_declare_wf, lemma_enter_scope_wf, lemma_initial_wf, lemma_move_wf,
    lemma_pop_open, lemma_pop_wf, lemma_release_wf, lemma_slice_wf, lemma_top_is_latest,
};
use crate::model::{
    count_active, BindingModel, BindingState, BorrowKind, BorrowModel, LedgerModel, ScopeModel,
    SlotModel, TrackerModel,
};
use crate::resource::{Resource, ResourceKind};

verus! {

struct Binding {
    name: String,
    mutable: bool,
    scope: usize,
    resource: Option<Resource>,
    /// Set when the scope ended while the binding still owned its resource.
    dropped: bool,
}

impl Binding {
    spec fn view(&self) -> BindingModel {
        BindingModel {
            name: self.name@,
            mutable: self.mutable,
            scope: self.scope as int,
            slot: match self.resource {
                Some(r) => SlotModel::Owned(r@),
                None => if self.dropped {
                    SlotModel::Dropped
                } else {
                    SlotModel::Moved
                },
            },
        }
    }
}

#[derive(Clone, Copy)]
enum Ledger {
    Unbound,
    Bound(usize),
    TornDown,
}

impl Ledger {
    spec fn view(&self) -> LedgerModel {
        match self {
            Ledger::Unbound => LedgerModel::Unbound,
            Ledger::Bound(b) => LedgerModel::Bound(*b as int),
            Ledger::TornDown => LedgerModel::TornDown,
        }
    }
}

#[derive(Clone, Copy)]
struct Borrow {
    binding: usize,
    kind: BorrowKind,
    holder: usize,
    active: bool,
    range: Option<(usize, usize)>,
}

impl Borrow {
    spec fn view(&self) -> BorrowModel {
        BorrowModel {
            binding: self.binding as int,
            kind: self.kind,
            holder: self.holder as int,
            active: self.active,
            range: match self.range {
                Some(w) => Some((w.0 as int, w.1 as int)),
                None => None,
            },
        }
    }
}

#[derive(Clone, Copy)]
struct Scope {
    parent: Option<usize>,
}

impl Scope {
    spec fn view(&self) -> ScopeModel {
        ScopeModel {
            parent: match self.parent {
                Some(p) => Some(p as int),
                None => None,
            },
        }
    }
}

/// The identities in `ids`, as the model counts them.
pub open spec fn identities(ids: Seq<usize>) -> Seq<int> {
    Seq::new(ids.len(), |i: int| ids[i] as int)
}

/// A scope-based resource tracker.
pub struct Tracker {
    bindings: Vec<Binding>,
    scopes: Vec<Scope>,
    open: Vec<usize>,
    borrows: Vec<Borrow>,
    ledger: Vec<Ledger>,
}

impl View for Tracker {
    type V = TrackerModel;

    closed spec fn view(&self) -> TrackerModel {
        TrackerModel {
            bindings: Seq::new(self.bindings@.len(), |i: int| self.bindings@[i].view()),
            scopes: Seq::new(self.scopes@.len(), |i: int| self.scopes@[i].view()),
            open: Seq::new(self.open@.len(), |i: int| self.open@[i] as int),
            borrows: Seq::new(self.borrows@.len(), |i: int| self.borrows@[i].view()),
            ledger: Seq::new(self.ledger@.len(), |i: int| self.ledger@[i].view()),
        }
    }
}

impl Tracker {
    /// The invariant of the tracker. Every operation keeps it.
    pub open spec fn wf(&self) -> bool {
        self@.wf()
    }

    /// A tracker with nothing declared and the outermost scope, `ScopeId(0)`,
    /// open.
    pub fn new() -> (t: Tracker)
        ensures
            t.wf(),
            t@ == TrackerModel::initial(),
    {
        let mut scopes: Vec<Scope> = Vec::new();
        scopes.push(Scope { parent: None });
        let mut open: Vec<usize> = Vec::new();
        open.push(0);
        let t = Tracker {
            bindings: Vec::new(),
            scopes,
            open,
            borrows: Vec::new(),
            ledger: Vec::new(),
        };
        proof {
            let m = TrackerModel::initial();
            assert(t@.bindings =~= m.bindings);
            assert(t@.scopes =~= m.scopes);
            assert(t@.open =~= m.open);
            assert(t@.borrows =~= m.borrows);
            assert(t@.ledger =~= m.ledger);
            lemma_initial_wf();
        }
        t
    }

    /// Issues a resource with these contents under a new identity. The
    /// resource is the caller's until it is declared or assigned.
    pub fn allocate(&mut self, kind: ResourceKind, contents: Vec<u8>) -> (r: Resource)
        requires
            old(self).wf(),
        ensures
            final(self).wf(),
            r@ == old(self)@.allocated(kind, contents@, 0),
            final(self)@ == old(self)@.allocate(),
    {
        let id: usize = self.ledger.len();
        self.ledger.push(Ledger::Unbound);
        proof {
            let m = old(self)@;
            assert(self@.ledger =~= m.allocate().ledger);
            assert(self@.bindings =~= m.bindings);
            assert(self@.scopes =~= m.scopes);
            assert(self@.open =~= m.open);
            assert(self@.borrows =~= m.borrows);
            lemma_allocate_wf(m);
        }
        Resource::new(id, kind, contents, 0)
    }

    /// Issues a growable buffer with room for `capacity` bytes, or for its
    /// contents if they are longer.
    pub fn allocate_with_capacity(&mut self, contents: Vec<u8>, capacity: usize) -> (r: Resource)
        requires
            old(self).wf(),
        ensures
            final(self).wf(),
            r@ == old(self)@.allocated(ResourceKind::Growable, contents@, capacity as int),
            final(self)@ == old(self)@.allocate(),
    {
        let id: usize = self.ledger.len();
        self.ledger.push(Ledger::Unbound);
        proof {
            let m = old(self)@;
            assert(self@.ledger =~= m.allocate().ledger);
            assert(self@.bindings =~= m.bindings);
            assert(self@.scopes =~= m.scopes);
            assert(self@.open =~= m.open);
            assert(self@.borrows =~= m.borrows);
            lemma_allocate_wf(m);
        }
        Resource::new(id, ResourceKind::Growable, contents, capacity)
    }

    /// Why `resource` cannot be given an owner, if it cannot.
    fn check_handle(&self, resource: &Resource) -> (e: Option<OwnershipError>)
        ensures
            e == self@.handle_error(resource@),
    {
        let id: usize = resource.id();
        if id >= self.ledger.len() {
            Some(OwnershipError::DanglingReference)
        } else {
            match self.ledger[id] {
                Ledger::Unbound => None,
                Ledger::Bound(_) => Some(OwnershipError::UseAfterMove),
                Ledger::TornDown => Some(OwnershipError::DoubleDrop),
            }
        }
    }

    /// Why binding `b` cannot be used, if it cannot.
    fn check_access(&self, b: usize) -> (e: Option<OwnershipError>)
        ensures
            e == self@.access_error(b as int),
            e is None ==> b < self.bindings@.len() && self.bindings@[b as int].resource is Some,
    {
        if b >= self.bindings.len() {
            Some(OwnershipError::DanglingReference)
        } else if self.bindings[b].resource.is_some() {
            None
        } else if self.bindings[b].dropped {
            Some(OwnershipError::DanglingReference)
        } else {
            Some(OwnershipError::UseAfterMove)
        }
    }

    /// Whether some borrow is live on binding `b`.
    fn has_borrow(&self, b: usize) -> (found: bool)
        ensures
            found == self@.borrowed(b as int),
    {
        let mut i: usize = 0;
        while i < self.borrows.len()
            invariant
                i <= self.borrows.len(),
                forall|j: int| 0 <= j < i ==> !self@.active_on(j, b as int),
            decreases self.borrows.len() - i,
        {
            if self.borrows[i].active && self.borrows[i].binding == b {
                assert(self@.active_on(i as int, b as int));
                return true;
            }
            i = i + 1;
        }
        false
    }

    /// Whether an exclusive borrow is live on binding `b`.
    fn has_exclusive_borrow(&self, b: usize) -> (found: bool)
        ensures
            found == self@.exclusively_borrowed(b as int),
    {
        let mut i: usize = 0;
        while i < self.borrows.len()
            invariant
                i <= self.borrows.len(),
                forall|j: int|
                    0 <= j < i ==> !(#[trigger] self@.active_on(j, b as int)
                        && self@.borrows[j].kind == BorrowKind::Exclusive),
            decreases self.borrows.len() - i,
        {
            if self.borrows[i].active && self.borrows[i].binding == b {
                match self.borrows[i].kind {
                    BorrowKind::Exclusive => {
                        assert(self@.active_on(i as int, b as int));
                        return true;
                    },
                    BorrowKind::Shared => {},
                }
            }
            i = i + 1;
        }
        false
    }

    /// Whether a new borrow of this kind on binding `b` would break
    /// exclusivity.
    fn has_conflict(&self, b: usize, kind: BorrowKind) -> (found: bool)
        ensures
            found == self@.conflicts(b as int, kind),
    {
        match kind {
            BorrowKind::Exclusive => self.has_borrow(b),
            BorrowKind::Shared => self.has_exclusive_borrow(b),
        }
    }

    /// Binds `resource` to `name` in the innermost scope.
    ///
    /// Fails with `DanglingReference` when no scope is open or the resource
    /// was not issued by this tracker, with `UseAfterMove` when the resource
    /// already has an owner, and with `DoubleDrop` when it was torn down.
    pub fn declare(&mut self, name: &str, resource: Resource, mutable: bool) -> (r: Result<
        BindingId,
        OwnershipError,
    >)
        requires
            old(self).wf(),
        ensures
            final(self).wf(),
            match r {
                Ok(b) => {
                    &&& old(self)@.declare_error(resource@) is None
                    &&& b.0 == old(self)@.bindings.len()
                    &&& final(self)@ == old(self)@.declare(name@, resource@, mutable)
                },
                Err(e) => old(self)@.declare_error(resource@) == Some(e) && final(self)@ == old(self)@,
            },
    {
        if self.open.len() == 0 {
            return Err(OwnershipError::DanglingReference);
        }
        match self.check_handle(&resource) {
            Some(e) => {
                return Err(e);
            },
            None => {},
        }
        let scope: usize = self.open[self.open.len() - 1];
        let index: usize = self.bindings.len();
        let id: usize = resource.id();
        self.ledger[id] = Ledger::Bound(index);
        self.bindings.push(
            Binding { name: name.to_owned(), mutable, scope, resource: Some(resource), dropped: false },
        );
        proof {
            let m = old(self)@;
            let n = m.declare(name@, resource@, mutable);
            assert(self@.ledger =~= n.ledger);
            assert(self@.bindings =~= n.bindings);
            assert(self@.scopes =~= n.scopes);
            assert(self@.open =~= n.open);
            assert(self@.borrows =~= n.borrows);
            lemma_declare_wf(m, name@, resource@, mutable);
        }
        Ok(BindingId(index))
    }
}

impl Tracker {
    /// Moves the resource out of binding `from`, which holds nothing
    /// afterwards.
    ///
    /// Fails with `UseAfterMove` when the resource was moved out before, with
    /// `DanglingReference` when the binding was never declared or its scope
    /// has ended, and with `BorrowConflict` while a borrow is live on it.
    pub fn move_out(&mut self, from: BindingId) -> (r: Result<Resource, OwnershipError>)
        requires
            old(self).wf(),
        ensures
            final(self).wf(),
            match r {
                Ok(res) => {
                    &&& old(self)@.move_error(from.0 as int) is None
                    &&& res@ == old(self)@.resource(from.0 as int)
                    &&& final(self)@ == old(self)@.move_out(from.0 as int)
                },
                Err(e) => old(self)@.move_error(from.0 as int) == Some(e) && final(self)@ == old(self)@,
            },
    {
        let b: usize = from.0;
        match self.check_access(b) {
            Some(e) => {
                return Err(e);
            },
            None => {},
        }
        if self.has_borrow(b) {
            return Err(OwnershipError::BorrowConflict);
        }
        let taken: Option<Resource> = self.bindings[b].resource.take();
        self.bindings[b].dropped = false;
        let res: Resource = taken.unwrap();
        let id: usize = res.id();
        proof {
            let m = old(self)@;
            assert(m.is_owned(b as int));
            assert(m.resource(b as int) == res@);
        }
        self.ledger[id] = Ledger::Unbound;
        proof {
            let m = old(self)@;
            let n = m.move_out(b as int);
            assert(self@.ledger =~= n.ledger);
            assert(self@.bindings =~= n.bindings);
            assert(self@.scopes =~= n.scopes);
            assert(self@.open =~= n.open);
            assert(self@.borrows =~= n.borrows);
            lemma_move_wf(m, b as int);
        }
        Ok(res)
    }

    /// Yields an independent resource with the contents of the one that
    /// binding `from` owns, under a new identity. A fixed resource is
    /// duplicated as it is; a growable one takes the deep-copy path, which
    /// allocates a buffer to fit. The binding keeps its resource.
    ///
    /// Fails as `move_out` does, but that shared borrows do not stand in the
    /// way: only an exclusive borrow gives `BorrowConflict`.
    pub fn copy(&mut self, from: BindingId) -> (r: Result<Resource, OwnershipError>)
        requires
            old(self).wf(),
        ensures
            final(self).wf(),
            match r {
                Ok(res) => {
                    &&& old(self)@.copy_error(from.0 as int) is None
                    &&& res@ == old(self)@.copied(from.0 as int)
                    &&& final(self)@ == old(self)@.allocate()
                },
                Err(e) => old(self)@.copy_error(from.0 as int) == Some(e) && final(self)@ == old(self)@,
            },
    {
        let b: usize = from.0;
        match self.check_access(b) {
            Some(e) => {
                return Err(e);
            },
            None => {},
        }
        if self.has_exclusive_borrow(b) {
            return Err(OwnershipError::BorrowConflict);
        }
        let id: usize = self.ledger.len();
        let source: &Resource = self.bindings[b].resource.as_ref().unwrap();
        let res: Resource = match source.kind() {
            ResourceKind::Fixed => Resource::new(
                id,
                ResourceKind::Fixed,
                copy_bytes(source.contents()),
                0,
            ),
            ResourceKind::Growable => source.duplicate(id),
        };
        self.ledger.push(Ledger::Unbound);
        proof {
            let m = old(self)@;
            assert(self@.ledger =~= m.allocate().ledger);
            assert(self@.bindings =~= m.bindings);
            assert(self@.scopes =~= m.scopes);
            assert(self@.open =~= m.open);
            assert(self@.borrows =~= m.borrows);
            lemma_allocate_wf(m);
        }
        Ok(res)
    }

    /// Gives binding `to` the resource `resource` in place of the one it
    /// owns, which is torn down; returns the identity of the one torn down.
    ///
    /// Fails with `UseAfterMove` or `DanglingReference` as `move_out` does,
    /// with `BorrowConflict` when the binding is not mutable or a borrow is
    /// live on it, and then as `declare` does for a resource that cannot be
    /// given an owner.
    pub fn assign(&mut self, to: BindingId, resource: Resource) -> (r: Result<
        usize,
        OwnershipError,
    >)
        requires
            old(self).wf(),
        ensures
            final(self).wf(),
            match r {
                Ok(torn) => {
                    &&& old(self)@.assign_error(to.0 as int, resource@) is None
                    &&& torn == old(self)@.resource(to.0 as int).id
                    &&& final(self)@ == old(self)@.assign(to.0 as int, resource@)
                },
                Err(e) => old(self)@.assign_error(to.0 as int, resource@) == Some(e) && final(self)@ == old(self)@,
            },
    {
        let b: usize = to.0;
        match self.check_access(b) {
            Some(e) => {
                return Err(e);
            },
            None => {},
        }
        if !self.bindings[b].mutable || self.has_borrow(b) {
            return Err(OwnershipError::BorrowConflict);
        }
        match self.check_handle(&resource) {
            Some(e) => {
                return Err(e);
            },
            None => {},
        }
        let id: usize = resource.id();
        let taken: Option<Resource> = self.bindings[b].resource.take();
        let was: usize = taken.unwrap().id();
        proof {
            let m = old(self)@;
            assert(m.is_owned(b as int));
            assert(m.resource(b as int).id == was);
        }
        self.bindings[b].resource = Some(resource);
        self.ledger[was] = Ledger::TornDown;
        self.ledger[id] = Ledger::Bound(b);
        proof {
            let m = old(self)@;
            let n = m.assign(b as int, resource@);
            assert(self@.ledger =~= n.ledger);
            assert(self@.bindings =~= n.bindings);
            assert(self@.scopes =~= n.scopes);
            assert(self@.open =~= n.open);
            assert(self@.borrows =~= n.borrows);
            lemma_assign_wf(m, b as int, resource@);
        }
        Ok(was)
    }

    /// Whether scope `s` is open.
    fn scope_is_open(&self, s: usize) -> (found: bool)
        ensures
            found == self@.is_open(s as int),
    {
        let mut k: usize = 0;
        while k < self.open.len()
            invariant
                k <= self.open.len(),
                forall|j: int| 0 <= j < k ==> self@.open[j] != s,
            decreases self.open.len() - k,
        {
            if self.open[k] == s {
                assert(self@.open[k as int] == s);
                return true;
            }
            k = k + 1;
        }
        false
    }

    /// Records a borrow at the end of the table.
    fn record(&mut self, borrow: Borrow)
        ensures
            final(self)@.borrows == old(self)@.borrows.push(borrow.view()),
            final(self)@.bindings == old(self)@.bindings,
            final(self)@.scopes == old(self)@.scopes,
            final(self)@.open == old(self)@.open,
            final(self)@.ledger == old(self)@.ledger,
    {
        self.borrows.push(borrow);
        proof {
            let m = old(self)@;
            assert(self@.borrows =~= m.borrows.push(borrow.view()));
            assert(self@.bindings =~= m.bindings);
            assert(self@.scopes =~= m.scopes);
            assert(self@.open =~= m.open);
            assert(self@.ledger =~= m.ledger);
        }
    }

    /// Takes a borrow on `binding` that lasts until it is released or until
    /// scope `holder` ends.
    ///
    /// Fails with `UseAfterMove` when the resource was moved out; with
    /// `DanglingReference` when the binding was never declared or its scope
    /// has ended, when `holder` is not open, or when `holder` encloses the
    /// binding's scope, so that the borrow could outlive the binding; and
    /// with `BorrowConflict` when `kind` is exclusive while any borrow is
    /// live on the binding, or shared while an exclusive one is.
    pub fn borrow_in(&mut self, binding: BindingId, kind: BorrowKind, holder: ScopeId) -> (r:
        Result<BorrowId, OwnershipError>)
        requires
            old(self).wf(),
        ensures
            final(self).wf(),
            match r {
                Ok(id) => {
                    &&& old(self)@.borrow_in_error(binding.0 as int, kind, holder.0 as int) is None
                    &&& id.0 == old(self)@.borrows.len()
                    &&& final(self)@ == old(self)@.borrow_in(
                        binding.0 as int,
                        kind,
                        holder.0 as int,
                    )
                },
                Err(e) => old(self)@.borrow_in_error(binding.0 as int, kind, holder.0 as int)
                    == Some(e) && final(self)@ == old(self)@,
            },
    {
        let b: usize = binding.0;
        match self.check_access(b) {
            Some(e) => {
                return Err(e);
            },
            None => {},
        }
        if !self.scope_is_open(holder.0) || holder.0 < self.bindings[b].scope {
            return Err(OwnershipError::DanglingReference);
        }
        if self.has_conflict(b, kind) {
            return Err(OwnershipError::BorrowConflict);
        }
        let id: usize = self.borrows.len();
        self.record(Borrow { binding: b, kind, holder: holder.0, active: true, range: None });
        proof {
            lemma_borrow_in_wf(old(self)@, b as int, kind, holder.0 as int);
        }
        Ok(BorrowId(id))
    }

    /// Takes a borrow on `binding` for the innermost scope.
    ///
    /// Fails with `UseAfterMove` when the resource was moved out, with
    /// `DanglingReference` when the binding was never declared or its scope
    /// has ended, and with `BorrowConflict` when `kind` is exclusive while
    /// any borrow is live on the binding, or shared while an exclusive one
    /// is.
    pub fn borrow(&mut self, binding: BindingId, kind: BorrowKind) -> (r: Result<
        BorrowId,
        OwnershipError,
    >)
        requires
            old(self).wf(),
        ensures
            final(self).wf(),
            match r {
                Ok(id) => {
                    &&& old(self)@.borrow_error(binding.0 as int, kind) is None
                    &&& id.0 == old(self)@.borrows.len()
                    &&& final(self)@ == old(self)@.borrow_in(
                        binding.0 as int,
                        kind,
                        old(self)@.open.last(),
                    )
                },
                Err(e) => old(self)@.borrow_error(binding.0 as int, kind) == Some(e) && final(self)@ == old(self)@,
            },
    {
        let b: usize = binding.0;
        match self.check_access(b) {
            Some(e) => {
                return Err(e);
            },
            None => {},
        }
        proof {
            lemma_borrow_error_is_current(self@, b as int, kind);
        }
        let holder: usize = self.open[self.open.len() - 1];
        self.borrow_in(binding, kind, ScopeId(holder))
    }

    /// Ends borrow `id` before its scope does.
    ///
    /// Fails with `DanglingReference` when there is no such borrow or it has
    /// ended already.
    pub fn release(&mut self, id: BorrowId) -> (r: Result<(), OwnershipError>)
        requires
            old(self).wf(),
        ensures
            final(self).wf(),
            match r {
                Ok(_) => old(self)@.release_error(id.0 as int) is None && final(self)@ == old(self)@.release(id.0 as int),
                Err(e) => old(self)@.release_error(id.0 as int) == Some(e) && final(self)@ == old(self)@,
            },
    {
        let i: usize = id.0;
        if i >= self.borrows.len() || !self.borrows[i].active {
            return Err(OwnershipError::DanglingReference);
        }
        self.borrows[i].active = false;
        proof {
            let m = old(self)@;
            let n = m.release(i as int);
            assert(self@.borrows =~= n.borrows);
            assert(self@.bindings =~= n.bindings);
            assert(self@.scopes =~= n.scopes);
            assert(self@.open =~= n.open);
            assert(self@.ledger =~= n.ledger);
            lemma_release_wf(m, i as int);
        }
        Ok(())
    }

    /// Takes a view of the bytes `[start, end)` of the resource that
    /// `binding` owns: a shared borrow for the innermost scope.
    ///
    /// Fails with `UseAfterMove` or `DanglingReference` as `borrow` does,
    /// with `BoundsError` unless `start <= end` and `end` is at most the
    /// length of the resource, and with `BorrowConflict` while an exclusive
    /// borrow is live on the binding.
    pub fn slice(&mut self, binding: BindingId, start: usize, end: usize) -> (r: Result<
        SliceView,
        OwnershipError,
    >)
        requires
            old(self).wf(),
        ensures
            final(self).wf(),
            match r {
                Ok(view) => {
                    &&& old(self)@.slice_error(binding.0 as int, start as int, end as int) is None
                    &&& view.spec_borrow() == old(self)@.borrows.len()
                    &&& view.spec_binding() == binding.0
                    &&& view.spec_start() == start
                    &&& view.spec_end() == end
                    &&& final(self)@ == old(self)@.slice(binding.0 as int, start as int, end as int)
                },
                Err(e) => old(self)@.slice_error(binding.0 as int, start as int, end as int)
                    == Some(e) && final(self)@ == old(self)@,
            },
    {
        let b: usize = binding.0;
        match self.check_access(b) {
            Some(e) => {
                return Err(e);
            },
            None => {},
        }
        let length: usize = self.bindings[b].resource.as_ref().unwrap().length();
        if start > end || end > length {
            return Err(OwnershipError::BoundsError);
        }
        proof {
            lemma_borrow_error_is_current(self@, b as int, BorrowKind::Shared);
        }
        if self.has_exclusive_borrow(b) {
            return Err(OwnershipError::BorrowConflict);
        }
        let holder: usize = self.open[self.open.len() - 1];
        let id: usize = self.borrows.len();
        self.record(
            Borrow {
                binding: b,
                kind: BorrowKind::Shared,
                holder,
                active: true,
                range: Some((start, end)),
            },
        );
        proof {
            lemma_slice_wf(old(self)@, b as int, start as int, end as int);
        }
        Ok(SliceView::new(id, b, start, end))
    }
}

/// A copy of `bytes`.
fn copy_bytes(bytes: &Vec<u8>) -> (copy: Vec<u8>)
    ensures
        copy@ == bytes@,
{
    let mut copy: Vec<u8> = Vec::new();
    let mut i: usize = 0;
    while i < bytes.len()
        invariant
            i <= bytes.len(),
            copy@ == bytes@.take(i as int),
        decreases bytes.len() - i,
    {
        copy.push(bytes[i]);
        i = i + 1;
        assert(copy@ =~= bytes@.take(i as int));
    }
    assert(copy@ =~= bytes@);
    copy
}

impl Tracker {
    /// Reads byte `i` of the window of `view`.
    ///
    /// Fails with `DanglingReference` when the view is over, because it was
    /// released or its scope has ended, and with `BoundsError` unless `i` is
    /// less than the length of the view.
    pub fn index(&self, view: &SliceView, i: usize) -> (r: Result<u8, OwnershipError>)
        requires
            self.wf(),
        ensures
            match r {
                Ok(byte) => {
                    &&& self@.index_error(
                        view.spec_borrow(),
                        view.spec_binding(),
                        view.spec_start(),
                        view.spec_end(),
                        i as int,
                    ) is None
                    &&& byte == self@.indexed(view.spec_binding(), view.spec_start(), i as int)
                },
                Err(e) => self@.index_error(
                    view.spec_borrow(),
                    view.spec_binding(),
                    view.spec_start(),
                    view.spec_end(),
                    i as int,
                ) == Some(e),
            },
    {
        let id: usize = view.borrow().0;
        let b: usize = view.binding().0;
        let start: usize = view.start();
        let end: usize = view.end();
        if id >= self.borrows.len() || !self.borrows[id].active || self.borrows[id].binding != b {
            return Err(OwnershipError::DanglingReference);
        }
        match self.borrows[id].range {
            Some(window) => {
                if window.0 != start || window.1 != end {
                    return Err(OwnershipError::DanglingReference);
                }
            },
            None => {
                return Err(OwnershipError::DanglingReference);
            },
        }
        assert(self@.live_view(id as int, b as int, start as int, end as int));
        if i >= end - start {
            return Err(OwnershipError::BoundsError);
        }
        assert(self@.borrows[id as int].active);
        assert(self@.is_owned(b as int));
        Ok(self.bindings[b].resource.as_ref().unwrap().byte(start + i))
    }

    /// Enters a scope inside the innermost one.
    pub fn enter_scope(&mut self) -> (id: ScopeId)
        requires
            old(self).wf(),
        ensures
            final(self).wf(),
            id.0 == old(self)@.scopes.len(),
            final(self)@ == old(self)@.enter_scope(),
    {
        let parent: Option<usize> = if self.open.len() > 0 {
            Some(self.open[self.open.len() - 1])
        } else {
            None
        };
        let id: usize = self.scopes.len();
        self.scopes.push(Scope { parent });
        self.open.push(id);
        proof {
            let m = old(self)@;
            let n = m.enter_scope();
            assert(self@.scopes =~= n.scopes);
            assert(self@.open =~= n.open);
            assert(self@.bindings =~= n.bindings);
            assert(self@.borrows =~= n.borrows);
            assert(self@.ledger =~= n.ledger);
            lemma_enter_scope_wf(m);
        }
        ScopeId(id)
    }

    /// Ends the innermost scope: ends the borrows it holds, then tears down
    /// what its bindings still own, the latest declared first, adding the
    /// identities to `torn`.
    fn pop_scope(&mut self, torn: &mut Vec<usize>)
        requires
            old(self).wf(),
            old(self)@.open.len() > 0,
        ensures
            final(self)@ == old(self)@.pop(),
            identities(final(torn)@) == identities(old(torn)@) + old(self)@.pop_torn(),
    {
        let ghost m = self@;
        let ghost before = identities(torn@);
        let ghost bindings0 = self.bindings@;
        let ghost ledger0 = self.ledger@;
        let ghost scopes0 = self.scopes@;
        let ghost borrows0 = self.borrows@;
        let s: usize = self.open[self.open.len() - 1];
        self.open.pop();
        let ghost open1 = self.open@;
        let mut i: usize = 0;
        while i < self.borrows.len()
            invariant
                i <= self.borrows@.len(),
                self.borrows@.len() == borrows0.len(),
                self.bindings@ == bindings0,
                self.ledger@ == ledger0,
                self.scopes@ == scopes0,
                self.open@ == open1,
                forall|j: int|
                    0 <= j < borrows0.len() ==> (#[trigger] self.borrows@[j]).view() == if j < i
                        && borrows0[j].holder == s {
                        borrows0[j].view().ended()
                    } else {
                        borrows0[j].view()
                    },
            decreases self.borrows@.len() - i,
        {
            if self.borrows[i].holder == s {
                self.borrows[i].active = false;
            }
            i = i + 1;
        }
        let ghost borrows1 = self.borrows@;
        let mut n: usize = self.bindings.len();
        assert(identities(torn@) + m.torn_among(s as int, n as int) =~= before + m.pop_torn());
        while n > 0
            invariant
                m.wf(),
                m.open.len() > 0,
                s == m.open.last(),
                m.bindings.len() == bindings0.len(),
                m.ledger.len() == ledger0.len(),
                forall|c: int| 0 <= c < bindings0.len() ==> m.bindings[c] == bindings0[c].view(),
                forall|id: int| 0 <= id < ledger0.len() ==> m.ledger[id] == ledger0[id].view(),
                n <= self.bindings@.len(),
                self.bindings@.len() == bindings0.len(),
                self.ledger@.len() == ledger0.len(),
                self.scopes@ == scopes0,
                self.open@ == open1,
                self.borrows@ == borrows1,
                forall|c: int|
                    0 <= c < bindings0.len() ==> (#[trigger] self.bindings@[c]).view() == if c >= n
                        && m.dies_with(c, s as int) {
                        m.bindings[c].with_slot(SlotModel::Dropped)
                    } else {
                        m.bindings[c]
                    },
                forall|c: int| 0 <= c < n ==> self.bindings@[c] == bindings0[c],
                forall|id: int|
                    0 <= id < ledger0.len() ==> (#[trigger] self.ledger@[id]).view() == match m.ledger[id] {
                        LedgerModel::Bound(c) => if c >= n && m.dies_with(c, s as int) {
                            LedgerModel::TornDown
                        } else {
                            m.ledger[id]
                        },
                        _ => m.ledger[id],
                    },
                identities(torn@) + m.torn_among(s as int, n as int) == before + m.pop_torn(),
            decreases n,
        {
            n = n - 1;
            let ghost ledger_now = self.ledger@;
            let ghost torn_now = identities(torn@);
            if self.bindings[n].scope == s {
                match self.bindings[n].resource.take() {
                    Some(res) => {
                        let id: usize = res.id();
                        proof {
                            assert(bindings0[n as int].resource == Some(res));
                            assert(m.is_owned(n as int));
                            assert(m.dies_with(n as int, s as int));
                            assert(m.resource(n as int).id == id);
                            assert(m.ledger[id as int] == LedgerModel::Bound(n as int));
                        }
                        self.bindings[n].dropped = true;
                        self.ledger[id] = Ledger::TornDown;
                        torn.push(id);
                        proof {
                            assert(identities(torn@) =~= torn_now.push(id as int));
                            assert(identities(torn@) + m.torn_among(s as int, n as int)
                                =~= torn_now + m.torn_among(s as int, n + 1));
                            assert forall|other: int| 0 <= other < ledger0.len() implies (
                            #[trigger] self.ledger@[other]).view() == match m.ledger[other] {
                                LedgerModel::Bound(c) => if c >= n && m.dies_with(c, s as int) {
                                    LedgerModel::TornDown
                                } else {
                                    m.ledger[other]
                                },
                                _ => m.ledger[other],
                            } by {
                                if other != id {
                                    assert(self.ledger@[other] == ledger_now[other]);
                                    if let LedgerModel::Bound(c) = m.ledger[other] {
                                        assert(m.is_owned(c));
                                        assert(c != n);
                                    }
                                }
                            }
                        }
                    },
                    None => {
                        proof {
                            assert(bindings0[n as int].resource is None);
                            assert(!m.is_owned(n as int));
                        }
                    },
                }
            } else {
                proof {
                    assert(!m.dies_with(n as int, s as int));
                }
            }
            proof {
                assert forall|other: int| 0 <= other < ledger0.len() implies (
                #[trigger] self.ledger@[other]).view() == match m.ledger[other] {
                    LedgerModel::Bound(c) => if c >= n && m.dies_with(c, s as int) {
                        LedgerModel::TornDown
                    } else {
                        m.ledger[other]
                    },
                    _ => m.ledger[other],
                } by {
                    if !m.dies_with(n as int, s as int) {
                        assert(self.ledger@[other] == ledger_now[other]);
                    }
                }
            }
        }
        proof {
            let p = m.pop();
            assert(m.torn_among(s as int, 0) =~= Seq::<int>::empty());
            assert(identities(torn@) =~= before + m.pop_torn());
            assert(self@.bindings =~= p.bindings);
            assert(self@.ledger =~= p.ledger);
            assert(self@.borrows =~= p.borrows);
            assert(self@.scopes =~= p.scopes);
            assert(self@.open =~= p.open);
        }
    }

    /// Ends scope `scope`, and before it every scope that was entered inside
    /// it and is still open, the innermost first. As each scope ends, the
    /// borrows it holds end, and what its bindings still own is torn down,
    /// the latest declared first. Returns the identities torn down, in the
    /// order of their teardown.
    ///
    /// Fails with `DoubleDrop` when the scope is not open: there is nothing
    /// of it left to tear down.
    pub fn exit_scope(&mut self, scope: ScopeId) -> (r: Result<Vec<usize>, OwnershipError>)
        requires
            old(self).wf(),
        ensures
            final(self).wf(),
            match r {
                Ok(torn) => {
                    &&& old(self)@.exit_error(scope.0 as int) is None
                    &&& identities(torn@) == old(self)@.exit_torn(scope.0 as int)
                    &&& final(self)@ == old(self)@.exit_scope(scope.0 as int)
                },
                Err(e) => old(self)@.exit_error(scope.0 as int) == Some(e) && final(self)@ == old(self)@,
            },
    {
        let s: usize = scope.0;
        if !self.scope_is_open(s) {
            return Err(OwnershipError::DoubleDrop);
        }
        let ghost m = self@;
        let mut torn: Vec<usize> = Vec::new();
        let mut done: bool = false;
        proof {
            assert(identities(torn@) + m.exit_torn(s as int) =~= m.exit_torn(s as int));
        }
        while !done
            invariant
                self.wf(),
                done ==> self@ == m.exit_scope(s as int) && identities(torn@) == m.exit_torn(
                    s as int,
                ),
                !done ==> {
                    &&& self@.is_open(s as int)
                    &&& self@.exit_scope(s as int) == m.exit_scope(s as int)
                    &&& identities(torn@) + self@.exit_torn(s as int) == m.exit_torn(s as int)
                },
            decreases
                    self@.open.len() + (if done {
                        0int
                    } else {
                        1int
                    }),
        {
            let ghost now = self@;
            let ghost torn_now = identities(torn@);
            proof {
                lemma_top_is_latest(now, s as int);
                lemma_pop_wf(now);
                lemma_pop_open(now, s as int);
            }
            let top: usize = self.open[self.open.len() - 1];
            self.pop_scope(&mut torn);
            if top == s {
                done = true;
            } else {
                proof {
                    assert(identities(torn@) + self@.exit_torn(s as int) =~= torn_now + (
                    now.pop_torn() + now.pop().exit_torn(s as int)));
                }
            }
        }
        Ok(torn)
    }
}

impl Tracker {
    /// The length of the resource that `binding` owns.
    ///
    /// Fails with `UseAfterMove` when the resource was moved out, and with
    /// `DanglingReference` when the binding was never declared or its scope
    /// has ended.
    pub fn length(&self, binding: BindingId) -> (r: Result<usize, OwnershipError>)
        ensures
            match r {
                Ok(n) => self@.access_error(binding.0 as int) is None && n == self@.resource(
                    binding.0 as int,
                ).length(),
                Err(e) => self@.access_error(binding.0 as int) == Some(e),
            },
    {
        let b: usize = binding.0;
        match self.check_access(b) {
            Some(e) => Err(e),
            None => Ok(self.bindings[b].resource.as_ref().unwrap().length()),
        }
    }

    /// Whether `binding` owns a resource.
    pub fn is_owned(&self, binding: BindingId) -> (owned: bool)
        ensures
            owned == self@.is_owned(binding.0 as int),
    {
        let b: usize = binding.0;
        b < self.bindings.len() && self.bindings[b].resource.is_some()
    }

    /// The number of borrows that are live on `binding`.
    pub fn active_borrows(&self, binding: BindingId) -> (count: usize)
        ensures
            count == self@.active_borrows(binding.0 as int),
    {
        let b: usize = binding.0;
        let mut count: usize = 0;
        let mut i: usize = 0;
        while i < self.borrows.len()
            invariant
                i <= self.borrows.len(),
                count <= i,
                count == count_active(self@.borrows, b as int, i as int),
            decreases self.borrows.len() - i,
        {
            if self.borrows[i].active && self.borrows[i].binding == b {
                count = count + 1;
            }
            i = i + 1;
        }
        count
    }

    /// Where `binding` stands in its life; `None` for one that was never
    /// declared.
    pub fn state(&self, binding: BindingId) -> (state: Option<BindingState>)
        ensures
            match state {
                Some(s) => self@.knows(binding.0 as int) && s == self@.state(binding.0 as int),
                None => !self@.knows(binding.0 as int),
            },
    {
        let b: usize = binding.0;
        if b >= self.bindings.len() {
            None
        } else if self.bindings[b].resource.is_some() {
            if self.has_exclusive_borrow(b) {
                Some(BindingState::Borrowed(BorrowKind::Exclusive))
            } else if self.has_borrow(b) {
                Some(BindingState::Borrowed(BorrowKind::Shared))
            } else {
                Some(BindingState::Owned)
            }
        } else if self.bindings[b].dropped {
            Some(BindingState::Dropped)
        } else {
            Some(BindingState::MovedOut)
        }
    }

    /// Whether `binding` was declared mutable.
    pub fn is_mutable(&self, binding: BindingId) -> (mutable: bool)
        ensures
            mutable == (self@.knows(binding.0 as int) && self@.bindings[binding.0 as int].mutable),
    {
        let b: usize = binding.0;
        b < self.bindings.len() && self.bindings[b].mutable
    }

    /// The name that `binding` was declared under.
    pub fn name(&self, binding: BindingId) -> (name: Option<&str>)
        ensures
            match name {
                Some(text) => self@.knows(binding.0 as int) && text@
                    == self@.bindings[binding.0 as int].name,
                None => !self@.knows(binding.0 as int),
            },
    {
        let b: usize = binding.0;
        if b < self.bindings.len() {
            Some(self.bindings[b].name.as_str())
        } else {
            None
        }
    }

    /// The scope that `binding` was declared in.
    pub fn scope_of(&self, binding: BindingId) -> (scope: Option<ScopeId>)
        ensures
            match scope {
                Some(s) => self@.knows(binding.0 as int) && s.0
                    == self@.bindings[binding.0 as int].scope,
                None => !self@.knows(binding.0 as int),
            },
    {
        let b: usize = binding.0;
        if b < self.bindings.len() {
            Some(ScopeId(self.bindings[b].scope))
        } else {
            None
        }
    }

    /// The innermost open scope.
    pub fn current_scope(&self) -> (scope: Option<ScopeId>)
        ensures
            match scope {
                Some(s) => self@.current() == Some(s.0 as int),
                None => self@.current() is None,
            },
    {
        if self.open.len() > 0 {
            Some(ScopeId(self.open[self.open.len() - 1]))
        } else {
            None
        }
    }

    /// Whether `scope` is open.
    pub fn is_open(&self, scope: ScopeId) -> (open: bool)
        ensures
            open == self@.is_open(scope.0 as int),
    {
        self.scope_is_open(scope.0)
    }

    /// The scope that `scope` was entered in; `None` for an outermost scope
    /// and for one that was never entered.
    pub fn parent(&self, scope: ScopeId) -> (parent: Option<ScopeId>)
        ensures
            match parent {
                Some(p) => 0 <= scope.0 < self@.scopes.len() && self@.scopes[scope.0 as int].parent
                    == Some(p.0 as int),
                None => !(0 <= scope.0 < self@.scopes.len()) || self@.scopes[scope.0 as int].parent
                    is None,
            },
    {
        let s: usize = scope.0;
        if s < self.scopes.len() {
            match self.scopes[s].parent {
                Some(p) => Some(ScopeId(p)),
                None => None,
            }
        } else {
            None
        }
    }
}

} // verus!
