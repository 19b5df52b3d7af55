//! What holds of the tracker whatever calls are made on it.

use vstd::prelude::*;
use crate::error::OwnershipError;
use crate::lemmas::{
    lemma_allocate_wf, lemma_assign_wf, lemma_borrow_error_is_current, lemma_borrow_in_wf,
    lemma_declare_wf, lemma_enter_scope_wf, lemma_exit_scope_wf, lemma_initial_wf, lemma_move_wf,
    lemma_pop_open, lemma_pop_wf, lemma_release_wf, lemma_slice_wf, lemma_top_is_latest,
};
use crate::model::{BorrowKind, LedgerModel, Op, SlotModel, TrackerModel};
use crate::resource::ResourceModel;

verus! {

/// Every call keeps the invariant, whether it is admitted or refused.
pub proof fn law_step_keeps_invariant(m: TrackerModel, op: Op)
    requires
        m.wf(),
    ensures
        m.step(op).wf(),
{
    if m.refusal(op) is None {
        match op {
            Op::Allocate => lemma_allocate_wf(m),
            Op::Declare { name, resource, mutable } => lemma_declare_wf(m, name, resource, mutable),
            Op::MoveOut { binding } => lemma_move_wf(m, binding),
            Op::Copy { binding } => lemma_allocate_wf(m),
            Op::Assign { binding, resource } => lemma_assign_wf(m, binding, resource),
            Op::Borrow { binding, kind } => {
                lemma_borrow_error_is_current(m, binding, kind);
                lemma_borrow_in_wf(m, binding, kind, m.open.last());
            },
            Op::BorrowIn { binding, kind, holder } => lemma_borrow_in_wf(m, binding, kind, holder),
            Op::Release { borrow } => lemma_release_wf(m, borrow),
            Op::Slice { binding, start, end } => lemma_slice_wf(m, binding, start, end),
            Op::EnterScope => lemma_enter_scope_wf(m),
            Op::ExitScope { scope } => lemma_exit_scope_wf(m, scope),
        }
    }
}

/// Any sequence of calls keeps the invariant.
pub proof fn law_run_keeps_invariant(m: TrackerModel, ops: Seq<Op>)
    requires
        m.wf(),
    ensures
        m.run(ops).wf(),
    decreases ops.len(),
{
    if ops.len() > 0 {
        law_run_keeps_invariant(m, ops.drop_last());
        law_step_keeps_invariant(m.run(ops.drop_last()), ops.last());
    }
}

/// Single ownership: after any sequence of calls on a new tracker, two
/// bindings that own a resource of the same identity are one binding.
pub proof fn law_single_ownership(ops: Seq<Op>, b1: int, b2: int)
    ensures
        ({
            let m = TrackerModel::initial().run(ops);
            m.is_owned(b1) && m.is_owned(b2) && m.resource(b1).id == m.resource(b2).id ==> b1
                == b2
        }),
{
    lemma_initial_wf();
    law_run_keeps_invariant(TrackerModel::initial(), ops);
    let m = TrackerModel::initial().run(ops);
    if m.is_owned(b1) && m.is_owned(b2) {
        assert(m.ledger[m.resource(b1).id] == LedgerModel::Bound(b1));
        assert(m.ledger[m.resource(b2).id] == LedgerModel::Bound(b2));
    }
}

/// Exclusivity: after any sequence of calls on a new tracker, two different
/// live borrows on one binding are both shared.
pub proof fn law_exclusivity(ops: Seq<Op>, b: int, i: int, j: int)
    ensures
        ({
            let m = TrackerModel::initial().run(ops);
            i != j && m.active_on(i, b) && m.active_on(j, b) ==> m.borrows[i].kind
                == BorrowKind::Shared && m.borrows[j].kind == BorrowKind::Shared
        }),
{
    lemma_initial_wf();
    law_run_keeps_invariant(TrackerModel::initial(), ops);
    let m = TrackerModel::initial().run(ops);
    if i != j && m.active_on(i, b) && m.active_on(j, b) {
        assert(m.borrows[i].active && m.borrows[j].active);
    }
}

/// No dangling reference: after any sequence of calls on a new tracker, a
/// live borrow refers to a binding that owns a resource, and the scope that
/// holds the borrow is open and is the binding's scope or lies inside it. So
/// no scope ends while a borrow on one of its bindings is live.
pub proof fn law_no_dangling_borrow(ops: Seq<Op>, i: int)
    ensures
        ({
            let m = TrackerModel::initial().run(ops);
            0 <= i < m.borrows.len() && m.borrows[i].active ==> {
                &&& m.is_owned(m.borrows[i].binding)
                &&& m.is_open(m.borrows[i].holder)
                &&& m.is_open(m.bindings[m.borrows[i].binding].scope)
                &&& m.borrows[i].holder >= m.bindings[m.borrows[i].binding].scope
            }
        }),
{
    lemma_initial_wf();
    law_run_keeps_invariant(TrackerModel::initial(), ops);
}

/// After any sequence of calls on a new tracker, a live view is a shared
/// borrow whose window lies within the resource that it looks at.
pub proof fn law_views_stay_in_bounds(ops: Seq<Op>, i: int, b: int, start: int, end: int)
    ensures
        ({
            let m = TrackerModel::initial().run(ops);
            m.live_view(i, b, start, end) ==> {
                &&& m.borrows[i].kind == BorrowKind::Shared
                &&& m.is_owned(b)
                &&& 0 <= start <= end <= m.resource(b).length()
            }
        }),
{
    lemma_initial_wf();
    law_run_keeps_invariant(TrackerModel::initial(), ops);
    let m = TrackerModel::initial().run(ops);
    if m.live_view(i, b, start, end) {
        assert(m.borrows[i].active);
    }
}

/// Ending a scope leaves a binding that holds no resource as it is.
proof fn lemma_exit_keeps_empty(m: TrackerModel, s: int, b: int)
    requires
        m.knows(b),
        !(m.bindings[b].slot is Owned),
    ensures
        m.exit_scope(s).knows(b),
        m.exit_scope(s).bindings[b] == m.bindings[b],
    decreases m.open.len(),
{
    if m.open.len() > 0 {
        assert(m.pop().bindings[b] == m.bindings[b]);
        assert(m.pop().open.len() < m.open.len());
        if m.open.last() != s {
            lemma_exit_keeps_empty(m.pop(), s, b);
        }
    }
}

/// No call brings back a binding whose scope has ended.
pub proof fn law_dropped_is_final(m: TrackerModel, op: Op, b: int)
    requires
        m.knows(b),
        m.bindings[b].slot is Dropped,
    ensures
        m.step(op).knows(b),
        m.step(op).bindings[b].slot is Dropped,
{
    if m.refusal(op) is None {
        match op {
            Op::ExitScope { scope } => lemma_exit_keeps_empty(m, scope, b),
            _ => {},
        }
    }
}

/// No call brings a moved binding back.
pub proof fn law_moved_is_final(m: TrackerModel, op: Op, b: int)
    requires
        m.knows(b),
        m.bindings[b].slot is Moved,
    ensures
        m.step(op).knows(b),
        m.step(op).bindings[b].slot is Moved,
{
    if m.refusal(op) is None {
        match op {
            Op::ExitScope { scope } => lemma_exit_keeps_empty(m, scope, b),
            _ => {},
        }
    }
}

/// Move invalidation: once the resource of binding `b` was moved out, every
/// later use of `b` fails with `UseAfterMove`, whatever calls were made in
/// between.
pub proof fn law_move_invalidates(m: TrackerModel, b: int, ops: Seq<Op>)
    requires
        m.wf(),
        m.move_error(b) is None,
    ensures
        ({
            let n = m.move_out(b).run(ops);
            &&& n.access_error(b) == Some(OwnershipError::UseAfterMove)
            &&& n.move_error(b) == Some(OwnershipError::UseAfterMove)
            &&& n.copy_error(b) == Some(OwnershipError::UseAfterMove)
            &&& forall|kind: BorrowKind| #[trigger]
                n.borrow_error(b, kind) == Some(OwnershipError::UseAfterMove)
            &&& forall|kind: BorrowKind, holder: int| #[trigger]
                n.borrow_in_error(b, kind, holder) == Some(OwnershipError::UseAfterMove)
            &&& forall|start: int, end: int| #[trigger]
                n.slice_error(b, start, end) == Some(OwnershipError::UseAfterMove)
            &&& forall|r: ResourceModel| #[trigger]
                n.assign_error(b, r) == Some(OwnershipError::UseAfterMove)
        }),
    decreases ops.len(),
{
    let moved = m.move_out(b);
    if ops.len() == 0 {
        assert(moved.run(ops) == moved);
    } else {
        law_move_invalidates(m, b, ops.drop_last());
        law_moved_is_final(moved.run(ops.drop_last()), ops.last(), b);
    }
}

/// Copy independence: the copy of a binding's resource has the same contents
/// under an identity that no binding owns, and once it is declared, giving
/// the new binding another resource leaves the first binding's resource as
/// it was.
pub proof fn law_copy_is_independent(
    m: TrackerModel,
    b: int,
    name: Seq<char>,
    mutable: bool,
    r: ResourceModel,
)
    requires
        m.wf(),
        m.copy_error(b) is None,
    ensures
        ({
            let copy = m.copied(b);
            let b2 = m.bindings.len() as int;
            let declared = m.allocate().declare(name, copy, mutable);
            &&& copy.contents == m.resource(b).contents
            &&& copy.id != m.resource(b).id
            &&& forall|c: int| #[trigger] m.is_owned(c) ==> m.resource(c).id != copy.id
            &&& m.allocate().declare_error(copy) is None
            &&& declared.is_owned(b) && declared.resource(b) == m.resource(b)
            &&& declared.is_owned(b2) && declared.resource(b2) == copy
            &&& declared.assign_error(b2, r) is None ==> {
                &&& declared.assign(b2, r).is_owned(b)
                &&& declared.assign(b2, r).resource(b) == m.resource(b)
                &&& declared.assign(b2, r).resource(b2) == r
            }
        }),
{
    assert(m.is_owned(b));
    assert(m.is_open(m.bindings[b].scope));
    lemma_top_is_latest(m, m.bindings[b].scope);
}

/// Bounds: on a binding that owns a resource, a window that ends past the
/// resource or before its own start is refused with `BoundsError`, whatever
/// borrows are live.
pub proof fn law_slice_bounds(m: TrackerModel, b: int, start: int, end: int)
    requires
        m.is_owned(b),
        end > m.resource(b).length() || start > end,
    ensures
        m.slice_error(b, start, end) == Some(OwnershipError::BoundsError),
{
}

/// The bindings among the first `n` that are torn down when scope `s` ends,
/// the latest declared first.
pub open spec fn doomed(m: TrackerModel, s: int, n: int) -> Seq<int>
    decreases n,
{
    if n <= 0 {
        Seq::empty()
    } else if m.dies_with(n - 1, s) {
        seq![n - 1] + doomed(m, s, n - 1)
    } else {
        doomed(m, s, n - 1)
    }
}

/// Reverse declaration order: what is torn down when a scope ends is what
/// its bindings own, each binding once, a binding declared later before one
/// declared earlier.
pub proof fn law_reverse_declaration_order(m: TrackerModel, s: int, n: int)
    requires
        0 <= n <= m.bindings.len(),
    ensures
        m.torn_among(s, n).len() == doomed(m, s, n).len(),
        forall|i: int|
            0 <= i < doomed(m, s, n).len() ==> {
                &&& 0 <= #[trigger] doomed(m, s, n)[i] < n
                &&& m.dies_with(doomed(m, s, n)[i], s)
                &&& m.torn_among(s, n)[i] == m.resource(doomed(m, s, n)[i]).id
            },
        forall|i: int, j: int|
            0 <= i < j < doomed(m, s, n).len() ==> #[trigger] doomed(m, s, n)[i]
                > #[trigger] doomed(m, s, n)[j],
        forall|b: int| 0 <= b < n && m.dies_with(b, s) ==> doomed(m, s, n).contains(b),
    decreases n,
{
    if n > 0 {
        law_reverse_declaration_order(m, s, n - 1);
        let rest = doomed(m, s, n - 1);
        let all = doomed(m, s, n);
        if m.dies_with(n - 1, s) {
            assert(all[0] == n - 1);
            assert forall|i: int| 1 <= i < all.len() implies all[i] == rest[i - 1] by {}
            assert forall|b: int| 0 <= b < n && m.dies_with(b, s) implies all.contains(b) by {
                if b < n - 1 {
                    let k = choose|k: int| 0 <= k < rest.len() && rest[k] == b;
                    assert(all[k + 1] == b);
                }
            }
            assert forall|i: int, j: int| 0 <= i < j < all.len() implies #[trigger] all[i]
                > #[trigger] all[j] by {
                assert(all[j] == rest[j - 1]);
                if i > 0 {
                    assert(all[i] == rest[i - 1]);
                }
            }
        }
    }
}

/// A scope that no binding among the first `n` dies with has nothing to tear
/// down among them.
proof fn lemma_nothing_to_tear_down(m: TrackerModel, s: int, n: int)
    requires
        forall|b: int| 0 <= b < n ==> !m.dies_with(b, s),
    ensures
        m.torn_among(s, n) == Seq::<int>::empty(),
    decreases n,
{
    if n > 0 {
        lemma_nothing_to_tear_down(m, s, n - 1);
    }
}

/// What ends with the innermost scope is what lives in it.
proof fn lemma_innermost_is_alone(m: TrackerModel, n: int)
    requires
        m.wf(),
        m.open.len() > 0,
        0 <= n <= m.bindings.len(),
    ensures
        m.torn_inside(m.open.last(), n) == m.torn_among(m.open.last(), n),
    decreases n,
{
    if n > 0 {
        lemma_innermost_is_alone(m, n - 1);
        if m.is_owned(n - 1) {
            assert(m.is_open(m.bindings[n - 1].scope));
            lemma_top_is_latest(m, m.bindings[n - 1].scope);
        }
    }
}

/// What ends with a scope is what lives in the innermost scope, and then
/// what ends with the scope once the innermost one has ended.
proof fn lemma_innermost_goes_first(m: TrackerModel, s: int, n: int)
    requires
        m.wf(),
        m.is_open(s),
        s != m.open.last(),
        0 <= n <= m.bindings.len(),
    ensures
        m.torn_inside(s, n) == m.torn_among(m.open.last(), n) + m.pop().torn_inside(s, n),
    decreases n,
{
    let top = m.open.last();
    let p = m.pop();
    lemma_top_is_latest(m, s);
    if n <= 0 {
        assert(m.torn_inside(s, n) =~= m.torn_among(top, n) + p.torn_inside(s, n));
    } else {
        lemma_innermost_goes_first(m, s, n - 1);
        let last = n - 1;
        if m.dies_with(last, top) {
            assert(!p.ends_with(last, s));
            assert(m.torn_inside(s, n) =~= m.torn_among(top, n) + p.torn_inside(s, n));
        } else if m.ends_with(last, s) {
            assert(m.is_open(m.bindings[last].scope));
            lemma_top_is_latest(m, m.bindings[last].scope);
            assert(m.bindings[last].scope < top);
            assert(p.ends_with(last, s));
            assert(p.resource(last) == m.resource(last));
            assert forall|b: int| 0 <= b < last implies !m.dies_with(b, top) by {
                if m.dies_with(b, top) {
                    assert(m.open[m.open.len() - 1] == top);
                    assert(m.is_open(m.bindings[b].scope));
                    assert(m.bindings[b].scope <= m.bindings[last].scope);
                }
            }
            lemma_nothing_to_tear_down(m, top, last);
            assert(m.torn_inside(s, n) =~= m.torn_among(top, n) + p.torn_inside(s, n));
        } else {
            assert(!p.ends_with(last, s));
        }
    }
}

/// Last in, first out: ending a scope tears down what the bindings in it and
/// in the scopes entered inside it own, the latest declared first, so that
/// the bindings of an inner scope all come before those of the scopes around
/// it. The bindings of those scopes keep what they own, and those scopes stay
/// open.
pub proof fn law_teardown_is_lifo(m: TrackerModel, s: int)
    requires
        m.wf(),
        m.is_open(s),
    ensures
        m.exit_torn(s) == m.torn_inside(s, m.bindings.len() as int),
        m.exit_scope(s).bindings.len() == m.bindings.len(),
        forall|b: int|
            0 <= b < m.bindings.len() ==> #[trigger] m.exit_scope(s).bindings[b] == if m.ends_with(
                b,
                s,
            ) {
                m.bindings[b].with_slot(SlotModel::Dropped)
            } else {
                m.bindings[b]
            },
        forall|t: int| m.exit_scope(s).is_open(t) <==> m.is_open(t) && t < s,
        forall|b1: int, b2: int|
            0 <= b1 < b2 < m.bindings.len() && m.ends_with(b1, s) ==> (
            #[trigger] m.bindings[b1]).scope <= (#[trigger] m.bindings[b2]).scope,
    decreases m.open.len(),
{
    let top = m.open.last();
    let p = m.pop();
    let n = m.bindings.len() as int;
    lemma_top_is_latest(m, s);
    lemma_pop_wf(m);
    assert forall|t: int| p.is_open(t) <==> m.is_open(t) && t != top by {
        lemma_pop_open(m, t);
    }
    assert forall|b: int| #[trigger] m.is_owned(b) implies m.bindings[b].scope <= top by {
        assert(m.is_open(m.bindings[b].scope));
        lemma_top_is_latest(m, m.bindings[b].scope);
    }
    assert forall|t: int| m.is_open(t) implies t <= top by {
        lemma_top_is_latest(m, t);
    }
    assert forall|b1: int, b2: int|
        0 <= b1 < b2 < m.bindings.len() && m.ends_with(b1, s) implies (
    #[trigger] m.bindings[b1]).scope <= (#[trigger] m.bindings[b2]).scope by {
        assert(m.is_owned(b1));
        assert(m.is_open(m.bindings[b1].scope));
    }
    if top == s {
        lemma_innermost_is_alone(m, n);
        assert forall|b: int| 0 <= b < n implies #[trigger] p.bindings[b] == if m.ends_with(b, s) {
            m.bindings[b].with_slot(SlotModel::Dropped)
        } else {
            m.bindings[b]
        } by {
            if m.is_owned(b) {
                assert(m.bindings[b].scope <= top);
            }
        }
    } else {
        law_teardown_is_lifo(p, s);
        lemma_innermost_goes_first(m, s, n);
        let q = p.exit_scope(s);
        assert forall|b: int| 0 <= b < n implies #[trigger] q.bindings[b] == if m.ends_with(b, s) {
            m.bindings[b].with_slot(SlotModel::Dropped)
        } else {
            m.bindings[b]
        } by {
            if m.dies_with(b, top) {
                assert(!p.ends_with(b, s));
            } else if m.is_owned(b) {
                assert(p.is_owned(b));
            }
        }
    }
}

/// Nested scopes: with scope `inner` the innermost and `outer` the one
/// around it, ending `inner` tears down only what lives in `inner`, and
/// leaves `outer` open with its bindings as they were; ending `outer`
/// tears down what lives in `inner`, all of it, and then what lives in
/// `outer`.
pub proof fn law_inner_scope_first(m: TrackerModel)
    requires
        m.wf(),
        m.open.len() >= 2,
    ensures
        ({
            let inner = m.open[m.open.len() - 1];
            let outer = m.open[m.open.len() - 2];
            let n = m.bindings.len() as int;
            &&& m.exit_torn(inner) == m.torn_among(inner, n)
            &&& m.exit_scope(inner).is_open(outer)
            &&& forall|b: int|
                0 <= b < n && (#[trigger] m.bindings[b]).scope != inner ==> m.exit_scope(
                    inner,
                ).bindings[b] == m.bindings[b]
            &&& m.exit_torn(outer) == m.torn_among(inner, n) + m.torn_among(outer, n)
        }),
{
    let inner = m.open[m.open.len() - 1];
    let outer = m.open[m.open.len() - 2];
    let n = m.bindings.len() as int;
    let p = m.pop();
    assert(m.open.last() == inner);
    assert(outer < inner);
    assert(m.is_open(outer));
    lemma_pop_open(m, outer);
    assert(p.open =~= m.open.drop_last());
    assert(p.open.last() == outer);
    assert(m.exit_torn(outer) == m.pop_torn() + p.exit_torn(outer));
    assert(p.exit_torn(outer) == p.torn_among(outer, n));
    lemma_pop_keeps_other_scopes(m, outer, n);
}

/// Ending the innermost scope changes nothing of what lives in another.
proof fn lemma_pop_keeps_other_scopes(m: TrackerModel, s: int, n: int)
    requires
        m.open.len() > 0,
        s != m.open.last(),
        0 <= n <= m.bindings.len(),
    ensures
        m.pop().torn_among(s, n) == m.torn_among(s, n),
    decreases n,
{
    if n > 0 {
        lemma_pop_keeps_other_scopes(m, s, n - 1);
    }
}

} // verus!
