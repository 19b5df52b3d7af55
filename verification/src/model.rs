//! The state of the tracker as plain values, and what each operation does to it.

use vstd::prelude::*;
use crate::error::OwnershipError;
use crate::resource::{ResourceKind, ResourceModel};

verus! {

/// Whether a borrow admits others beside it.
#[derive(Clone, Copy, Debug, PartialEq, Eq, Structural)]
pub enum BorrowKind {
    Shared,
    Exclusive,
}

/// What a binding holds.
pub enum SlotModel {
    /// The binding owns this resource.
    Owned(ResourceModel),
    /// The resource was moved out. Nothing brings the binding back.
    Moved,
    /// The binding's scope has ended, or the binding never held a resource.
    Dropped,
}

/// Where a binding stands in its life.
#[derive(Clone, Copy, Debug, PartialEq, Eq, Structural)]
pub enum BindingState {
    /// It owns a resource, and no borrow is live on it.
    Owned,
    /// It owns a resource, and borrows of this kind are live on it.
    Borrowed(BorrowKind),
    /// Its resource was moved out.
    MovedOut,
    /// Its scope has ended.
    Dropped,
}

/// A name bound to a resource within a scope. Its index in the table is its
/// declaration order.
pub struct BindingModel {
    pub name: Seq<char>,
    pub mutable: bool,
    pub scope: int,
    pub slot: SlotModel,
}

/// What the tracker knows of an identity it has issued.
pub enum LedgerModel {
    /// The resource is held by the caller, not by a binding.
    Unbound,
    /// The resource is owned by the binding with this index.
    Bound(int),
    /// The resource was torn down.
    TornDown,
}

/// A temporary access to a binding, held by a scope.
pub struct BorrowModel {
    pub binding: int,
    pub kind: BorrowKind,
    /// The scope whose exit ends the borrow at the latest.
    pub holder: int,
    pub active: bool,
    /// For a view, the window `[start, end)` that it is restricted to.
    pub range: Option<(int, int)>,
}

/// A lexical region.
pub struct ScopeModel {
    /// The enclosing region; the outermost has none.
    pub parent: Option<int>,
}

/// The whole state: value table, scope stack, borrow table.
pub struct TrackerModel {
    pub bindings: Seq<BindingModel>,
    /// Every scope ever entered, by identity.
    pub scopes: Seq<ScopeModel>,
    /// The scopes that are open, outermost first.
    pub open: Seq<int>,
    pub borrows: Seq<BorrowModel>,
    /// Every resource identity ever issued.
    pub ledger: Seq<LedgerModel>,
}

impl BorrowModel {
    /// The same borrow after its validity has ended.
    pub open spec fn ended(self) -> BorrowModel {
        BorrowModel { active: false, ..self }
    }
}

impl BindingModel {
    /// The same binding with another content.
    pub open spec fn with_slot(self, slot: SlotModel) -> BindingModel {
        BindingModel { slot, ..self }
    }
}

/// How many of the first `n` borrows are live on binding `b`.
pub open spec fn count_active(borrows: Seq<BorrowModel>, b: int, n: int) -> nat
    decreases n,
{
    if n <= 0 {
        0
    } else {
        let rest = count_active(borrows, b, n - 1);
        if borrows[n - 1].active && borrows[n - 1].binding == b {
            rest + 1
        } else {
            rest
        }
    }
}

impl TrackerModel {
    /// The state of a new tracker: nothing declared, one scope open.
    pub open spec fn initial() -> TrackerModel {
        TrackerModel {
            bindings: Seq::empty(),
            scopes: seq![ScopeModel { parent: None }],
            open: seq![0int],
            borrows: Seq::empty(),
            ledger: Seq::empty(),
        }
    }

    // ----- reading the state -----

    /// `b` is the index of a declared binding.
    pub open spec fn knows(self, b: int) -> bool {
        0 <= b < self.bindings.len()
    }

    /// `b` is a binding that owns a resource.
    pub open spec fn is_owned(self, b: int) -> bool {
        self.knows(b) && self.bindings[b].slot is Owned
    }

    /// The resource that binding `b` owns.
    pub open spec fn resource(self, b: int) -> ResourceModel
        recommends
            self.is_owned(b),
    {
        self.bindings[b].slot->Owned_0
    }

    /// Scope `s` is open.
    pub open spec fn is_open(self, s: int) -> bool {
        exists|k: int| 0 <= k < self.open.len() && #[trigger] self.open[k] == s
    }

    /// The innermost open scope.
    pub open spec fn current(self) -> Option<int> {
        if self.open.len() > 0 {
            Some(self.open.last())
        } else {
            None
        }
    }

    /// Borrow `i` is live on binding `b`.
    pub open spec fn active_on(self, i: int, b: int) -> bool {
        0 <= i < self.borrows.len() && self.borrows[i].active && self.borrows[i].binding == b
    }

    /// Some borrow is live on binding `b`.
    pub open spec fn borrowed(self, b: int) -> bool {
        exists|i: int| self.active_on(i, b)
    }

    /// An exclusive borrow is live on binding `b`.
    pub open spec fn exclusively_borrowed(self, b: int) -> bool {
        exists|i: int| #[trigger] self.active_on(i, b) && self.borrows[i].kind == BorrowKind::Exclusive
    }

    /// The number of borrows that are live on binding `b`.
    pub open spec fn active_borrows(self, b: int) -> nat {
        count_active(self.borrows, b, self.borrows.len() as int)
    }

    /// Where binding `b` stands in its life.
    pub open spec fn state(self, b: int) -> BindingState
        recommends
            self.knows(b),
    {
        match self.bindings[b].slot {
            SlotModel::Owned(_) => if self.exclusively_borrowed(b) {
                BindingState::Borrowed(BorrowKind::Exclusive)
            } else if self.borrowed(b) {
                BindingState::Borrowed(BorrowKind::Shared)
            } else {
                BindingState::Owned
            },
            SlotModel::Moved => BindingState::MovedOut,
            SlotModel::Dropped => BindingState::Dropped,
        }
    }

    /// Why binding `b` cannot be used, if it cannot: it was never declared or
    /// its scope has ended (`DanglingReference`), or its resource was moved
    /// out (`UseAfterMove`).
    pub open spec fn access_error(self, b: int) -> Option<OwnershipError> {
        if !self.knows(b) {
            Some(OwnershipError::DanglingReference)
        } else {
            match self.bindings[b].slot {
                SlotModel::Owned(_) => None,
                SlotModel::Moved => Some(OwnershipError::UseAfterMove),
                SlotModel::Dropped => Some(OwnershipError::DanglingReference),
            }
        }
    }

    /// Why resource `r` cannot be given an owner, if it cannot: its identity
    /// was not issued here (`DanglingReference`), it has an owner already
    /// (`UseAfterMove`), or it was torn down (`DoubleDrop`).
    pub open spec fn handle_error(self, r: ResourceModel) -> Option<OwnershipError> {
        if !(0 <= r.id < self.ledger.len()) {
            Some(OwnershipError::DanglingReference)
        } else {
            match self.ledger[r.id] {
                LedgerModel::Unbound => None,
                LedgerModel::Bound(_) => Some(OwnershipError::UseAfterMove),
                LedgerModel::TornDown => Some(OwnershipError::DoubleDrop),
            }
        }
    }

    /// A new borrow of this kind on binding `b` would break exclusivity.
    pub open spec fn conflicts(self, b: int, kind: BorrowKind) -> bool {
        match kind {
            BorrowKind::Exclusive => self.borrowed(b),
            BorrowKind::Shared => self.exclusively_borrowed(b),
        }
    }

    // ----- what holds of every state the tracker reaches -----

    /// The open scopes form a stack: each was entered inside the one below
    /// it, and later than it.
    pub open spec fn scopes_wf(self) -> bool {
        &&& forall|k: int|
            0 <= k < self.open.len() ==> 0 <= #[trigger] self.open[k] < self.scopes.len()
        &&& forall|j: int, k: int|
            0 <= j < k < self.open.len() ==> #[trigger] self.open[j] < #[trigger] self.open[k]
        &&& self.open.len() > 0 ==> self.scopes[self.open[0]].parent is None
        &&& forall|j: int, k: int|
            0 <= j && k == j + 1 && k < self.open.len() ==> self.scopes[#[trigger] self.open[k]].parent
                == Some(#[trigger] self.open[j])
    }

    /// Every binding lives in one scope; one that owns a resource lives in an
    /// open scope; and a binding declared later lives in the same scope or
    /// further inside.
    pub open spec fn bindings_wf(self) -> bool {
        &&& forall|b: int|
            0 <= b < self.bindings.len() ==> 0 <= (#[trigger] self.bindings[b]).scope
                < self.scopes.len()
        &&& forall|b: int| #[trigger] self.is_owned(b) ==> self.is_open(self.bindings[b].scope)
        &&& forall|b1: int, b2: int|
            0 <= b1 < b2 < self.bindings.len() && self.is_open(
                (#[trigger] self.bindings[b1]).scope,
            ) ==> self.bindings[b1].scope <= (#[trigger] self.bindings[b2]).scope
    }

    /// Single ownership: the ledger names the one owner of each resource that
    /// has one, and each owner is named.
    pub open spec fn ledger_wf(self) -> bool {
        &&& forall|b: int| #[trigger]
            self.is_owned(b) ==> 0 <= self.resource(b).id < self.ledger.len()
                && self.ledger[self.resource(b).id] == LedgerModel::Bound(b)
        &&& forall|id: int|
            0 <= id < self.ledger.len() ==> (#[trigger] self.ledger[id] matches LedgerModel::Bound(
                b,
            ) ==> self.is_owned(b) && self.resource(b).id == id)
    }

    /// A live borrow refers to a binding that owns a resource, is held by an
    /// open scope that does not enclose the binding's scope, and, where it is
    /// a view, is shared and lies within the resource.
    pub open spec fn borrows_wf(self) -> bool {
        &&& forall|i: int|
            0 <= i < self.borrows.len() && (#[trigger] self.borrows[i]).active ==> {
                &&& self.is_owned(self.borrows[i].binding)
                &&& self.is_open(self.borrows[i].holder)
                &&& self.borrows[i].holder >= self.bindings[self.borrows[i].binding].scope
            }
        &&& forall|i: int|
            0 <= i < self.borrows.len() && (#[trigger] self.borrows[i]).active ==> (
            self.borrows[i].range matches Some(window) ==> {
                &&& self.borrows[i].kind == BorrowKind::Shared
                &&& 0 <= window.0 <= window.1 <= self.resource(self.borrows[i].binding).length()
            })
    }

    /// Exclusivity: an exclusive borrow is the only live borrow on its binding.
    pub open spec fn exclusive_alone(self) -> bool {
        forall|i: int, j: int|
            0 <= i < self.borrows.len() && 0 <= j < self.borrows.len() && i != j && (
            #[trigger] self.borrows[i]).active && (#[trigger] self.borrows[j]).active
                && self.borrows[i].binding == self.borrows[j].binding ==> self.borrows[i].kind
                == BorrowKind::Shared
    }

    /// The invariant of the tracker.
    pub open spec fn wf(self) -> bool {
        &&& self.scopes_wf()
        &&& self.bindings_wf()
        &&& self.ledger_wf()
        &&& self.borrows_wf()
        &&& self.exclusive_alone()
    }

    // ----- allocate -----

    /// The resource that `allocate` issues.
    pub open spec fn allocated(self, kind: ResourceKind, contents: Seq<u8>, reserved: int) -> ResourceModel {
        ResourceModel { id: self.ledger.len() as int, kind, contents, reserved }
    }

    /// The state after a resource was issued: one more identity, unbound.
    pub open spec fn allocate(self) -> TrackerModel {
        TrackerModel { ledger: self.ledger.push(LedgerModel::Unbound), ..self }
    }

    // ----- declare -----

    /// Why `declare` refuses `r`, if it does: no scope is open
    /// (`DanglingReference`), or `r` cannot be given an owner.
    pub open spec fn declare_error(self, r: ResourceModel) -> Option<OwnershipError> {
        if self.open.len() == 0 {
            Some(OwnershipError::DanglingReference)
        } else {
            self.handle_error(r)
        }
    }

    /// The state after `r` was bound to a new name in the innermost scope.
    pub open spec fn declare(self, name: Seq<char>, r: ResourceModel, mutable: bool) -> TrackerModel {
        TrackerModel {
            bindings: self.bindings.push(
                BindingModel { name, mutable, scope: self.open.last(), slot: SlotModel::Owned(r) },
            ),
            ledger: self.ledger.update(r.id, LedgerModel::Bound(self.bindings.len() as int)),
            ..self
        }
    }

    // ----- move -----

    /// Why `move_out` refuses binding `b`, if it does: the binding cannot be
    /// used, or a borrow is live on it (`BorrowConflict`).
    pub open spec fn move_error(self, b: int) -> Option<OwnershipError> {
        match self.access_error(b) {
            Some(e) => Some(e),
            None => if self.borrowed(b) {
                Some(OwnershipError::BorrowConflict)
            } else {
                None
            },
        }
    }

    /// The state after the resource of binding `b` was moved out.
    pub open spec fn move_out(self, b: int) -> TrackerModel {
        TrackerModel {
            bindings: self.bindings.update(b, self.bindings[b].with_slot(SlotModel::Moved)),
            ledger: self.ledger.update(self.resource(b).id, LedgerModel::Unbound),
            ..self
        }
    }

    // ----- copy -----

    /// Why `copy` refuses binding `b`, if it does: the binding cannot be used,
    /// or an exclusive borrow is live on it (`BorrowConflict`).
    pub open spec fn copy_error(self, b: int) -> Option<OwnershipError> {
        match self.access_error(b) {
            Some(e) => Some(e),
            None => if self.exclusively_borrowed(b) {
                Some(OwnershipError::BorrowConflict)
            } else {
                None
            },
        }
    }

    /// The resource that a copy of binding `b` yields.
    pub open spec fn copied(self, b: int) -> ResourceModel {
        self.resource(b).duplicate(self.ledger.len() as int)
    }

    // ----- assign -----

    /// Why `assign` refuses to give `r` to binding `b`, if it does: the
    /// binding cannot be used; it is not mutable or a borrow is live on it
    /// (`BorrowConflict`); or `r` cannot be given an owner.
    pub open spec fn assign_error(self, b: int, r: ResourceModel) -> Option<OwnershipError> {
        match self.access_error(b) {
            Some(e) => Some(e),
            None => if !self.bindings[b].mutable || self.borrowed(b) {
                Some(OwnershipError::BorrowConflict)
            } else {
                self.handle_error(r)
            },
        }
    }

    /// The state after binding `b` was given `r` in place of its resource,
    /// which is torn down.
    pub open spec fn assign(self, b: int, r: ResourceModel) -> TrackerModel {
        TrackerModel {
            bindings: self.bindings.update(b, self.bindings[b].with_slot(SlotModel::Owned(r))),
            ledger: self.ledger.update(self.resource(b).id, LedgerModel::TornDown).update(
                r.id,
                LedgerModel::Bound(b),
            ),
            ..self
        }
    }

    // ----- borrow -----

    /// Why a borrow of this kind on binding `b` for scope `holder` is refused,
    /// if it is: the binding cannot be used; `holder` is not open or encloses
    /// the binding's scope (`DanglingReference`); or the borrow would break
    /// exclusivity (`BorrowConflict`).
    pub open spec fn borrow_in_error(self, b: int, kind: BorrowKind, holder: int) -> Option<
        OwnershipError,
    > {
        match self.access_error(b) {
            Some(e) => Some(e),
            None => if !self.is_open(holder) || holder < self.bindings[b].scope {
                Some(OwnershipError::DanglingReference)
            } else if self.conflicts(b, kind) {
                Some(OwnershipError::BorrowConflict)
            } else {
                None
            },
        }
    }

    /// Why a borrow of this kind on binding `b` for the innermost scope is
    /// refused, if it is.
    pub open spec fn borrow_error(self, b: int, kind: BorrowKind) -> Option<OwnershipError> {
        match self.access_error(b) {
            Some(e) => Some(e),
            None => if self.open.len() == 0 {
                Some(OwnershipError::DanglingReference)
            } else {
                self.borrow_in_error(b, kind, self.open.last())
            },
        }
    }

    /// The state after a borrow on binding `b` was recorded for `holder`.
    pub open spec fn borrow_in(self, b: int, kind: BorrowKind, holder: int) -> TrackerModel {
        TrackerModel {
            borrows: self.borrows.push(
                BorrowModel { binding: b, kind, holder, active: true, range: None },
            ),
            ..self
        }
    }

    // ----- release -----

    /// Why borrow `i` cannot be ended, if it cannot: there is no such borrow,
    /// or it is over (`DanglingReference`).
    pub open spec fn release_error(self, i: int) -> Option<OwnershipError> {
        if 0 <= i < self.borrows.len() && self.borrows[i].active {
            None
        } else {
            Some(OwnershipError::DanglingReference)
        }
    }

    /// The state after borrow `i` was ended.
    pub open spec fn release(self, i: int) -> TrackerModel {
        TrackerModel { borrows: self.borrows.update(i, self.borrows[i].ended()), ..self }
    }

    // ----- slice -----

    /// Why a view of `[start, end)` on binding `b` is refused, if it is: the
    /// binding cannot be used; the window does not lie within the resource
    /// (`BoundsError`); or an exclusive borrow is live on the binding
    /// (`BorrowConflict`).
    pub open spec fn slice_error(self, b: int, start: int, end: int) -> Option<OwnershipError> {
        match self.access_error(b) {
            Some(e) => Some(e),
            None => if !(0 <= start <= end <= self.resource(b).length()) {
                Some(OwnershipError::BoundsError)
            } else if self.open.len() == 0 {
                Some(OwnershipError::DanglingReference)
            } else if self.exclusively_borrowed(b) {
                Some(OwnershipError::BorrowConflict)
            } else {
                None
            },
        }
    }

    /// The state after a view of `[start, end)` on binding `b` was recorded
    /// for the innermost scope.
    pub open spec fn slice(self, b: int, start: int, end: int) -> TrackerModel {
        TrackerModel {
            borrows: self.borrows.push(
                BorrowModel {
                    binding: b,
                    kind: BorrowKind::Shared,
                    holder: self.open.last(),
                    active: true,
                    range: Some((start, end)),
                },
            ),
            ..self
        }
    }

    /// Borrow `i` is a live view of `[start, end)` on binding `b`.
    pub open spec fn live_view(self, i: int, b: int, start: int, end: int) -> bool {
        self.active_on(i, b) && self.borrows[i].range == Some((start, end))
    }

    /// Why byte `i` cannot be read through the view that borrow `borrow` is,
    /// if it cannot: the view is over (`DanglingReference`), or `i` lies
    /// outside the window (`BoundsError`).
    pub open spec fn index_error(self, borrow: int, b: int, start: int, end: int, i: int) -> Option<
        OwnershipError,
    > {
        if !self.live_view(borrow, b, start, end) {
            Some(OwnershipError::DanglingReference)
        } else if !(0 <= i < end - start) {
            Some(OwnershipError::BoundsError)
        } else {
            None
        }
    }

    /// Byte `i` of the window that begins at `start` in the resource of
    /// binding `b`.
    pub open spec fn indexed(self, b: int, start: int, i: int) -> u8 {
        self.resource(b).contents[start + i]
    }

    // ----- scopes -----

    /// The state after a scope was entered inside the innermost one.
    pub open spec fn enter_scope(self) -> TrackerModel {
        TrackerModel {
            scopes: self.scopes.push(ScopeModel { parent: self.current() }),
            open: self.open.push(self.scopes.len() as int),
            ..self
        }
    }

    /// Binding `b` is torn down when scope `s` ends.
    pub open spec fn dies_with(self, b: int, s: int) -> bool {
        self.is_owned(b) && self.bindings[b].scope == s
    }

    /// The state after the innermost scope has ended: its borrows are over,
    /// and what its bindings still owned is torn down.
    pub open spec fn pop(self) -> TrackerModel
        recommends
            self.open.len() > 0,
    {
        let s = self.open.last();
        TrackerModel {
            bindings: Seq::new(
                self.bindings.len(),
                |b: int|
                    if self.dies_with(b, s) {
                        self.bindings[b].with_slot(SlotModel::Dropped)
                    } else {
                        self.bindings[b]
                    },
            ),
            scopes: self.scopes,
            open: self.open.drop_last(),
            borrows: Seq::new(
                self.borrows.len(),
                |i: int|
                    if self.borrows[i].holder == s {
                        self.borrows[i].ended()
                    } else {
                        self.borrows[i]
                    },
            ),
            ledger: Seq::new(
                self.ledger.len(),
                |id: int|
                    match self.ledger[id] {
                        LedgerModel::Bound(b) => if self.dies_with(b, s) {
                            LedgerModel::TornDown
                        } else {
                            self.ledger[id]
                        },
                        _ => self.ledger[id],
                    },
            ),
        }
    }

    /// The identities torn down when scope `s` ends, among the first `n`
    /// bindings: the latest declared comes first.
    pub open spec fn torn_among(self, s: int, n: int) -> Seq<int>
        decreases n,
    {
        if n <= 0 {
            Seq::empty()
        } else if self.dies_with(n - 1, s) {
            seq![self.resource(n - 1).id] + self.torn_among(s, n - 1)
        } else {
            self.torn_among(s, n - 1)
        }
    }

    /// The identities torn down when the innermost scope ends, in the order of
    /// their teardown.
    pub open spec fn pop_torn(self) -> Seq<int>
        recommends
            self.open.len() > 0,
    {
        self.torn_among(self.open.last(), self.bindings.len() as int)
    }

    /// Why scope `s` cannot be ended, if it cannot: it is not open, so that
    /// what lived in it was torn down before (`DoubleDrop`).
    pub open spec fn exit_error(self, s: int) -> Option<OwnershipError> {
        if self.is_open(s) {
            None
        } else {
            Some(OwnershipError::DoubleDrop)
        }
    }

    /// The state after scope `s` has ended, and before it every scope entered
    /// inside it, the innermost first.
    pub open spec fn exit_scope(self, s: int) -> TrackerModel
        decreases self.open.len(),
    {
        if self.open.len() == 0 {
            self
        } else if self.open.last() == s {
            self.pop()
        } else {
            self.pop().exit_scope(s)
        }
    }

    /// The identities torn down by `exit_scope(s)`, in the order of their
    /// teardown.
    pub open spec fn exit_torn(self, s: int) -> Seq<int>
        decreases self.open.len(),
    {
        if self.open.len() == 0 {
            Seq::empty()
        } else if self.open.last() == s {
            self.pop_torn()
        } else {
            self.pop_torn() + self.pop().exit_torn(s)
        }
    }
}

/// One call on the tracker, with its arguments as plain values.
pub enum Op {
    Allocate,
    Declare { name: Seq<char>, resource: ResourceModel, mutable: bool },
    MoveOut { binding: int },
    Copy { binding: int },
    Assign { binding: int, resource: ResourceModel },
    Borrow { binding: int, kind: BorrowKind },
    BorrowIn { binding: int, kind: BorrowKind, holder: int },
    Release { borrow: int },
    Slice { binding: int, start: int, end: int },
    EnterScope,
    ExitScope { scope: int },
}

impl TrackerModel {
    /// Why the call is refused, if it is.
    pub open spec fn refusal(self, op: Op) -> Option<OwnershipError> {
        match op {
            Op::Allocate => None,
            Op::Declare { name, resource, mutable } => self.declare_error(resource),
            Op::MoveOut { binding } => self.move_error(binding),
            Op::Copy { binding } => self.copy_error(binding),
            Op::Assign { binding, resource } => self.assign_error(binding, resource),
            Op::Borrow { binding, kind } => self.borrow_error(binding, kind),
            Op::BorrowIn { binding, kind, holder } => self.borrow_in_error(binding, kind, holder),
            Op::Release { borrow } => self.release_error(borrow),
            Op::Slice { binding, start, end } => self.slice_error(binding, start, end),
            Op::EnterScope => None,
            Op::ExitScope { scope } => self.exit_error(scope),
        }
    }

    /// The state that the call leaves: a refused call leaves it as it was.
    pub open spec fn step(self, op: Op) -> TrackerModel {
        if self.refusal(op) is Some {
            self
        } else {
            match op {
                Op::Allocate => self.allocate(),
                Op::Declare { name, resource, mutable } => self.declare(name, resource, mutable),
                Op::MoveOut { binding } => self.move_out(binding),
                Op::Copy { binding } => self.allocate(),
                Op::Assign { binding, resource } => self.assign(binding, resource),
                Op::Borrow { binding, kind } => self.borrow_in(binding, kind, self.open.last()),
                Op::BorrowIn { binding, kind, holder } => self.borrow_in(binding, kind, holder),
                Op::Release { borrow } => self.release(borrow),
                Op::Slice { binding, start, end } => self.slice(binding, start, end),
                Op::EnterScope => self.enter_scope(),
                Op::ExitScope { scope } => self.exit_scope(scope),
            }
        }
    }

    /// The state after the calls of `ops`, made in turn.
    pub open spec fn run(self, ops: Seq<Op>) -> TrackerModel
        decreases ops.len(),
    {
        if ops.len() == 0 {
            self
        } else {
            self.run(ops.drop_last()).step(ops.last())
        }
    }

    /// Binding `b` ends with scope `s`: it owns a resource and lives in `s`
    /// or in a scope entered inside it.
    pub open spec fn ends_with(self, b: int, s: int) -> bool {
        self.is_owned(b) && self.bindings[b].scope >= s
    }

    /// The identities that the first `n` bindings own in scope `s` or
    /// inside it: the latest declared comes first.
    pub open spec fn torn_inside(self, s: int, n: int) -> Seq<int>
        decreases n,
    {
        if n <= 0 {
            Seq::empty()
        } else if self.ends_with(n - 1, s) {
            seq![self.resource(n - 1).id] + self.torn_inside(s, n - 1)
        } else {
            self.torn_inside(s, n - 1)
        }
    }
}

} // verus!
