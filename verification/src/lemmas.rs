//! Each operation keeps the invariant of the tracker.

use vstd::prelude::*;
use crate::error::OwnershipError;
use crate::model::{BorrowKind, LedgerModel, TrackerModel};
use crate::resource::ResourceModel;

verus! {

pub proof fn lemma_initial_wf()
    ensures
        TrackerModel::initial().wf(),
{
    let m = TrackerModel::initial();
    assert(m.open[0] == 0);
}

/// The innermost open scope is the latest entered of the open scopes.
pub proof fn lemma_top_is_latest(m: TrackerModel, s: int)
    requires
        m.scopes_wf(),
        m.is_open(s),
    ensures
        m.open.len() > 0,
        s <= m.open.last(),
{
    let k = choose|k: int| 0 <= k < m.open.len() && #[trigger] m.open[k] == s;
    if k < m.open.len() - 1 {
        assert(m.open[k] < m.open[m.open.len() - 1]);
    }
}

pub proof fn lemma_allocate_wf(m: TrackerModel)
    requires
        m.wf(),
    ensures
        m.allocate().wf(),
{
    let n = m.allocate();
    assert(n.scopes_wf());
    assert(n.borrows_wf()) by {
        assert forall|b: int| m.is_owned(b) implies n.is_owned(b) by {}
    }
    assert(n.exclusive_alone());
    assert(n.bindings_wf()) by {
        assert forall|b: int| #[trigger] n.is_owned(b) implies n.is_open(n.bindings[b].scope) by {
            assert(m.is_owned(b));
        }
    }
    assert(n.ledger_wf()) by {
        assert forall|b: int| #[trigger] n.is_owned(b) implies 0 <= n.resource(b).id
            < n.ledger.len() && n.ledger[n.resource(b).id] == LedgerModel::Bound(b) by {
            assert(m.is_owned(b));
        }
        assert forall|id: int| 0 <= id < n.ledger.len() implies (
        #[trigger] n.ledger[id] matches LedgerModel::Bound(b) ==> n.is_owned(b) && n.resource(b).id
            == id) by {
            if id < m.ledger.len() {
                assert(n.ledger[id] == m.ledger[id]);
            }
        }
    }
}

pub proof fn lemma_declare_wf(m: TrackerModel, name: Seq<char>, r: ResourceModel, mutable: bool)
    requires
        m.wf(),
        m.declare_error(r) is None,
    ensures
        m.declare(name, r, mutable).wf(),
{
    let n = m.declare(name, r, mutable);
    let fresh = m.bindings.len() as int;
    let top = m.open.last();
    assert(n.open == m.open);
    assert(n.open[n.open.len() - 1] == top);
    assert(n.is_open(top));
    assert forall|b: int| m.is_owned(b) implies n.is_owned(b) && n.resource(b) == m.resource(b) by {}
    assert forall|b: int| #[trigger] n.is_owned(b) && b != fresh implies m.is_owned(b) by {}
    assert(n.scopes_wf());
    assert(n.bindings_wf()) by {
        assert forall|b: int| #[trigger] n.is_owned(b) implies n.is_open(n.bindings[b].scope) by {
            if b != fresh {
                assert(m.is_owned(b));
                assert(m.is_open(m.bindings[b].scope));
            }
        }
        assert forall|b1: int, b2: int|
            0 <= b1 < b2 < n.bindings.len() && n.is_open((#[trigger] n.bindings[b1]).scope)
            implies n.bindings[b1].scope <= (#[trigger] n.bindings[b2]).scope by {
            assert(m.is_open(m.bindings[b1].scope));
            if b2 == fresh {
                lemma_top_is_latest(m, m.bindings[b1].scope);
            } else {
                assert(m.bindings[b1].scope <= m.bindings[b2].scope);
            }
        }
    }
    assert(n.ledger_wf()) by {
        assert forall|b: int| #[trigger] n.is_owned(b) implies 0 <= n.resource(b).id
            < n.ledger.len() && n.ledger[n.resource(b).id] == LedgerModel::Bound(b) by {
            if b != fresh {
                assert(m.is_owned(b));
            }
        }
        assert forall|id: int| 0 <= id < n.ledger.len() implies (
        #[trigger] n.ledger[id] matches LedgerModel::Bound(b) ==> n.is_owned(b) && n.resource(b).id
            == id) by {
            if id != r.id {
                assert(n.ledger[id] == m.ledger[id]);
            }
        }
    }
    assert(n.borrows_wf());
    assert(n.exclusive_alone());
}

pub proof fn lemma_move_wf(m: TrackerModel, b: int)
    requires
        m.wf(),
        m.move_error(b) is None,
    ensures
        m.move_out(b).wf(),
{
    let n = m.move_out(b);
    assert(m.is_owned(b));
    assert forall|c: int| #[trigger] n.is_owned(c) implies m.is_owned(c) && c != b && n.resource(c)
        == m.resource(c) by {}
    assert forall|c: int| m.is_owned(c) && c != b implies n.is_owned(c) by {}
    assert(n.scopes_wf());
    assert(n.bindings_wf()) by {
        assert forall|c: int| #[trigger] n.is_owned(c) implies n.is_open(n.bindings[c].scope) by {
            assert(m.is_owned(c));
        }
        assert forall|b1: int, b2: int|
            0 <= b1 < b2 < n.bindings.len() && n.is_open((#[trigger] n.bindings[b1]).scope)
            implies n.bindings[b1].scope <= (#[trigger] n.bindings[b2]).scope by {
            assert(m.bindings[b1].scope <= m.bindings[b2].scope);
        }
    }
    assert(n.ledger_wf()) by {
        assert forall|c: int| #[trigger] n.is_owned(c) implies 0 <= n.resource(c).id
            < n.ledger.len() && n.ledger[n.resource(c).id] == LedgerModel::Bound(c) by {
            assert(m.is_owned(c));
        }
        assert forall|id: int| 0 <= id < n.ledger.len() implies (
        #[trigger] n.ledger[id] matches LedgerModel::Bound(c) ==> n.is_owned(c) && n.resource(c).id
            == id) by {
            if id != m.resource(b).id {
                assert(n.ledger[id] == m.ledger[id]);
            }
        }
    }
    assert(n.borrows_wf()) by {
        assert forall|i: int| 0 <= i < n.borrows.len() && (#[trigger] n.borrows[i]).active implies {
            &&& n.is_owned(n.borrows[i].binding)
            &&& n.is_open(n.borrows[i].holder)
            &&& n.borrows[i].holder >= n.bindings[n.borrows[i].binding].scope
        } by {
            assert(m.is_owned(m.borrows[i].binding));
            assert(m.active_on(i, m.borrows[i].binding));
        }
        assert forall|i: int| 0 <= i < n.borrows.len() && (#[trigger] n.borrows[i]).active implies (
        n.borrows[i].range matches Some(window) ==> {
            &&& n.borrows[i].kind == BorrowKind::Shared
            &&& 0 <= window.0 <= window.1 <= n.resource(n.borrows[i].binding).length()
        }) by {
            assert(m.active_on(i, m.borrows[i].binding));
        }
    }
    assert(n.exclusive_alone());
}

pub proof fn lemma_assign_wf(m: TrackerModel, b: int, r: ResourceModel)
    requires
        m.wf(),
        m.assign_error(b, r) is None,
    ensures
        m.assign(b, r).wf(),
{
    let n = m.assign(b, r);
    let was = m.resource(b).id;
    assert(m.is_owned(b));
    assert(m.ledger[was] == LedgerModel::Bound(b));
    assert(was != r.id);
    assert forall|c: int| #[trigger] n.is_owned(c) implies m.is_owned(c) by {}
    assert forall|c: int| m.is_owned(c) implies n.is_owned(c) by {}
    assert(n.scopes_wf());
    assert(n.bindings_wf()) by {
        assert forall|c: int| #[trigger] n.is_owned(c) implies n.is_open(n.bindings[c].scope) by {
            assert(m.is_owned(c));
        }
        assert forall|b1: int, b2: int|
            0 <= b1 < b2 < n.bindings.len() && n.is_open((#[trigger] n.bindings[b1]).scope)
            implies n.bindings[b1].scope <= (#[trigger] n.bindings[b2]).scope by {
            assert(m.bindings[b1].scope <= m.bindings[b2].scope);
        }
    }
    assert(n.ledger_wf()) by {
        assert forall|c: int| #[trigger] n.is_owned(c) implies 0 <= n.resource(c).id
            < n.ledger.len() && n.ledger[n.resource(c).id] == LedgerModel::Bound(c) by {
            assert(m.is_owned(c));
            if c != b {
                assert(m.ledger[m.resource(c).id] == LedgerModel::Bound(c));
            }
        }
        assert forall|id: int| 0 <= id < n.ledger.len() implies (
        #[trigger] n.ledger[id] matches LedgerModel::Bound(c) ==> n.is_owned(c) && n.resource(c).id
            == id) by {
            if id != was && id != r.id {
                assert(n.ledger[id] == m.ledger[id]);
                if let LedgerModel::Bound(c) = m.ledger[id] {
                    assert(m.is_owned(c));
                    assert(c != b);
                }
            }
        }
    }
    assert(n.borrows_wf()) by {
        assert forall|i: int| 0 <= i < n.borrows.len() && (#[trigger] n.borrows[i]).active implies {
            &&& n.is_owned(n.borrows[i].binding)
            &&& n.is_open(n.borrows[i].holder)
            &&& n.borrows[i].holder >= n.bindings[n.borrows[i].binding].scope
        } by {
            assert(m.is_owned(m.borrows[i].binding));
        }
        assert forall|i: int| 0 <= i < n.borrows.len() && (#[trigger] n.borrows[i]).active implies (
        n.borrows[i].range matches Some(window) ==> {
            &&& n.borrows[i].kind == BorrowKind::Shared
            &&& 0 <= window.0 <= window.1 <= n.resource(n.borrows[i].binding).length()
        }) by {
            assert(m.active_on(i, m.borrows[i].binding));
        }
    }
    assert(n.exclusive_alone());
}

/// A borrow added at the end of the table keeps the invariant when it does
/// not break exclusivity and refers to a binding that owns a resource.
proof fn lemma_push_borrow_wf(m: TrackerModel, n: TrackerModel, b: int)
    requires
        m.wf(),
        n.bindings == m.bindings,
        n.scopes == m.scopes,
        n.open == m.open,
        n.ledger == m.ledger,
        n.borrows.len() == m.borrows.len() + 1,
        n.borrows.drop_last() == m.borrows,
        n.borrows.last().binding == b,
        n.borrows.last().active,
        m.is_owned(b),
        m.is_open(n.borrows.last().holder),
        n.borrows.last().holder >= m.bindings[b].scope,
        !m.conflicts(b, n.borrows.last().kind),
        n.borrows.last().range matches Some(window) ==> n.borrows.last().kind
            == BorrowKind::Shared && 0 <= window.0 <= window.1 <= m.resource(b).length(),
    ensures
        n.wf(),
{
    let fresh = m.borrows.len() as int;
    assert forall|i: int| 0 <= i < fresh implies n.borrows[i] == m.borrows[i] by {
        assert(n.borrows.drop_last()[i] == n.borrows[i]);
    }
    assert forall|c: int| m.is_owned(c) == n.is_owned(c) by {}
    assert forall|s: int| m.is_open(s) == n.is_open(s) by {}
    assert(n.scopes_wf());
    assert(n.bindings_wf()) by {
        assert forall|c: int| #[trigger] n.is_owned(c) implies n.is_open(n.bindings[c].scope) by {
            assert(m.is_owned(c));
        }
    }
    assert(n.ledger_wf()) by {
        assert forall|c: int| #[trigger] n.is_owned(c) implies 0 <= n.resource(c).id
            < n.ledger.len() && n.ledger[n.resource(c).id] == LedgerModel::Bound(c) by {
            assert(m.is_owned(c));
        }
    }
    assert(n.borrows_wf()) by {
        assert forall|i: int| 0 <= i < n.borrows.len() && (#[trigger] n.borrows[i]).active implies {
            &&& n.is_owned(n.borrows[i].binding)
            &&& n.is_open(n.borrows[i].holder)
            &&& n.borrows[i].holder >= n.bindings[n.borrows[i].binding].scope
        } by {
            if i < fresh {
                assert(m.borrows[i].active);
                assert(m.is_owned(m.borrows[i].binding));
                assert(m.is_open(m.borrows[i].holder));
            }
        }
        assert forall|i: int| 0 <= i < n.borrows.len() && (#[trigger] n.borrows[i]).active implies (
        n.borrows[i].range matches Some(window) ==> {
            &&& n.borrows[i].kind == BorrowKind::Shared
            &&& 0 <= window.0 <= window.1 <= n.resource(n.borrows[i].binding).length()
        }) by {
            if i < fresh {
                assert(m.borrows[i].active);
            }
        }
    }
    assert(n.exclusive_alone()) by {
        assert forall|i: int, j: int|
            0 <= i < n.borrows.len() && 0 <= j < n.borrows.len() && i != j && (
            #[trigger] n.borrows[i]).active && (#[trigger] n.borrows[j]).active
                && n.borrows[i].binding == n.borrows[j].binding implies n.borrows[i].kind
            == BorrowKind::Shared by {
            if i < fresh && j < fresh {
                assert(m.borrows[i].active && m.borrows[j].active);
            } else if i == fresh {
                assert(m.active_on(j, b));
                assert(m.borrowed(b));
            } else {
                assert(m.active_on(i, b));
                if m.borrows[i].kind == BorrowKind::Exclusive {
                    assert(m.exclusively_borrowed(b));
                    assert(m.borrowed(b));
                }
            }
        }
    }
}

pub proof fn lemma_borrow_in_wf(m: TrackerModel, b: int, kind: BorrowKind, holder: int)
    requires
        m.wf(),
        m.borrow_in_error(b, kind, holder) is None,
    ensures
        m.borrow_in(b, kind, holder).wf(),
{
    let n = m.borrow_in(b, kind, holder);
    assert(n.borrows.drop_last() =~= m.borrows);
    lemma_push_borrow_wf(m, n, b);
}

/// Under the invariant, borrowing for the innermost scope is borrowing for a
/// scope that is open and lies inside the binding's scope.
pub proof fn lemma_borrow_error_is_current(m: TrackerModel, b: int, kind: BorrowKind)
    requires
        m.wf(),
        m.access_error(b) is None,
    ensures
        m.open.len() > 0,
        m.is_open(m.open.last()),
        m.open.last() >= m.bindings[b].scope,
        m.borrow_error(b, kind) == m.borrow_in_error(b, kind, m.open.last()),
        m.borrow_error(b, kind) == if m.conflicts(b, kind) {
            Some(OwnershipError::BorrowConflict)
        } else {
            None
        },
{
    assert(m.is_owned(b));
    lemma_top_is_latest(m, m.bindings[b].scope);
    assert(m.open[m.open.len() - 1] == m.open.last());
}

pub proof fn lemma_slice_wf(m: TrackerModel, b: int, start: int, end: int)
    requires
        m.wf(),
        m.slice_error(b, start, end) is None,
    ensures
        m.slice(b, start, end).wf(),
{
    let n = m.slice(b, start, end);
    lemma_borrow_error_is_current(m, b, BorrowKind::Shared);
    assert(n.borrows.drop_last() =~= m.borrows);
    lemma_push_borrow_wf(m, n, b);
}

pub proof fn lemma_release_wf(m: TrackerModel, i: int)
    requires
        m.wf(),
        m.release_error(i) is None,
    ensures
        m.release(i).wf(),
{
    let n = m.release(i);
    assert(n.open == m.open);
    assert(n.bindings == m.bindings);
    assert forall|c: int| m.is_owned(c) == n.is_owned(c) by {}
    assert forall|s: int| m.is_open(s) == n.is_open(s) by {
        if m.is_open(s) {
            let k = choose|k: int| 0 <= k < m.open.len() && #[trigger] m.open[k] == s;
            assert(n.open[k] == s);
        }
    }
    assert(n.scopes_wf());
    assert(n.bindings_wf()) by {
        assert forall|c: int| #[trigger] n.is_owned(c) implies n.is_open(n.bindings[c].scope) by {
            assert(m.is_owned(c));
        }
    }
    assert(n.ledger_wf()) by {
        assert forall|c: int| #[trigger] n.is_owned(c) implies 0 <= n.resource(c).id
            < n.ledger.len() && n.ledger[n.resource(c).id] == LedgerModel::Bound(c) by {
            assert(m.is_owned(c));
        }
    }
    assert(n.borrows_wf()) by {
        assert forall|j: int| 0 <= j < n.borrows.len() && (#[trigger] n.borrows[j]).active implies {
            &&& n.is_owned(n.borrows[j].binding)
            &&& n.is_open(n.borrows[j].holder)
            &&& n.borrows[j].holder >= n.bindings[n.borrows[j].binding].scope
        } by {
            assert(m.borrows[j].active);
        }
        assert forall|j: int| 0 <= j < n.borrows.len() && (#[trigger] n.borrows[j]).active implies (
        n.borrows[j].range matches Some(window) ==> {
            &&& n.borrows[j].kind == BorrowKind::Shared
            &&& 0 <= window.0 <= window.1 <= n.resource(n.borrows[j].binding).length()
        }) by {
            assert(m.borrows[j].active);
        }
    }
    assert(n.exclusive_alone()) by {
        assert forall|j: int, k: int|
            0 <= j < n.borrows.len() && 0 <= k < n.borrows.len() && j != k && (
            #[trigger] n.borrows[j]).active && (#[trigger] n.borrows[k]).active
                && n.borrows[j].binding == n.borrows[k].binding implies n.borrows[j].kind
            == BorrowKind::Shared by {
            assert(m.borrows[j].active && m.borrows[k].active);
        }
    }
}

pub proof fn lemma_enter_scope_wf(m: TrackerModel)
    requires
        m.wf(),
    ensures
        m.enter_scope().wf(),
{
    let n = m.enter_scope();
    let fresh = m.scopes.len() as int;
    assert forall|c: int| m.is_owned(c) == n.is_owned(c) by {}
    assert forall|s: int| m.is_open(s) implies n.is_open(s) by {
        let k = choose|k: int| 0 <= k < m.open.len() && #[trigger] m.open[k] == s;
        assert(n.open[k] == s);
    }
    assert forall|s: int| n.is_open(s) && s != fresh implies m.is_open(s) by {
        let k = choose|k: int| 0 <= k < n.open.len() && #[trigger] n.open[k] == s;
        assert(m.open[k] == s);
    }
    assert(n.scopes_wf()) by {
        assert forall|k: int| 0 <= k < n.open.len() implies 0 <= #[trigger] n.open[k]
            < n.scopes.len() by {
            if k < m.open.len() {
                assert(n.open[k] == m.open[k]);
            }
        }
        assert forall|j: int, k: int| 0 <= j < k < n.open.len() implies #[trigger] n.open[j]
            < #[trigger] n.open[k] by {
            assert(n.open[j] == m.open[j]);
            if k < m.open.len() {
                assert(n.open[k] == m.open[k]);
            }
        }
        if m.open.len() > 0 {
            assert(n.open[0] == m.open[0]);
        }
        assert forall|j: int, k: int| 0 <= j && k == j + 1 && k < n.open.len() implies n.scopes[
        #[trigger] n.open[k]].parent == Some(#[trigger] n.open[j]) by {
            assert(n.open[j] == m.open[j]);
            if k < m.open.len() {
                assert(n.open[k] == m.open[k]);
            }
        }
    }
    assert(n.bindings_wf()) by {
        assert forall|c: int| #[trigger] n.is_owned(c) implies n.is_open(n.bindings[c].scope) by {
            assert(m.is_owned(c));
            assert(m.is_open(m.bindings[c].scope));
        }
        assert forall|b1: int, b2: int|
            0 <= b1 < b2 < n.bindings.len() && n.is_open((#[trigger] n.bindings[b1]).scope)
            implies n.bindings[b1].scope <= (#[trigger] n.bindings[b2]).scope by {
            assert(m.bindings[b1].scope < fresh);
            assert(m.is_open(m.bindings[b1].scope));
        }
    }
    assert(n.ledger_wf()) by {
        assert forall|c: int| #[trigger] n.is_owned(c) implies 0 <= n.resource(c).id
            < n.ledger.len() && n.ledger[n.resource(c).id] == LedgerModel::Bound(c) by {
            assert(m.is_owned(c));
        }
    }
    assert(n.borrows_wf()) by {
        assert forall|i: int| 0 <= i < n.borrows.len() && (#[trigger] n.borrows[i]).active implies {
            &&& n.is_owned(n.borrows[i].binding)
            &&& n.is_open(n.borrows[i].holder)
            &&& n.borrows[i].holder >= n.bindings[n.borrows[i].binding].scope
        } by {
            assert(m.borrows[i].active);
            assert(m.is_open(m.borrows[i].holder));
        }
    }
    assert(n.exclusive_alone());
}

/// After the innermost scope has ended, the scopes that are open are those
/// that were open, but for that one.
pub proof fn lemma_pop_open(m: TrackerModel, s: int)
    requires
        m.scopes_wf(),
        m.open.len() > 0,
    ensures
        m.pop().open.len() == m.open.len() - 1,
        m.pop().is_open(s) <==> m.is_open(s) && s != m.open.last(),
{
    let n = m.pop();
    let last = m.open.len() - 1;
    assert(n.open =~= m.open.drop_last());
    if n.is_open(s) {
        let k = choose|k: int| 0 <= k < n.open.len() && #[trigger] n.open[k] == s;
        assert(m.open[k] == s);
        assert(m.open[k] < m.open[last]);
    }
    if m.is_open(s) && s != m.open.last() {
        let k = choose|k: int| 0 <= k < m.open.len() && #[trigger] m.open[k] == s;
        assert(n.open[k] == s);
    }
}

pub proof fn lemma_pop_wf(m: TrackerModel)
    requires
        m.wf(),
        m.open.len() > 0,
    ensures
        m.pop().wf(),
{
    let n = m.pop();
    let s = m.open.last();
    let last = m.open.len() - 1;
    assert(n.open =~= m.open.drop_last());
    assert forall|t: int| n.is_open(t) <==> m.is_open(t) && t != s by {
        lemma_pop_open(m, t);
    }
    assert forall|c: int| n.is_owned(c) <==> m.is_owned(c) && m.bindings[c].scope != s by {}
    assert(n.scopes_wf()) by {
        assert forall|k: int| 0 <= k < n.open.len() implies 0 <= #[trigger] n.open[k]
            < n.scopes.len() by {
            assert(n.open[k] == m.open[k]);
        }
        assert forall|j: int, k: int| 0 <= j < k < n.open.len() implies #[trigger] n.open[j]
            < #[trigger] n.open[k] by {
            assert(n.open[j] == m.open[j]);
            assert(n.open[k] == m.open[k]);
        }
        if n.open.len() > 0 {
            assert(n.open[0] == m.open[0]);
        }
        assert forall|j: int, k: int| 0 <= j && k == j + 1 && k < n.open.len() implies n.scopes[
        #[trigger] n.open[k]].parent == Some(#[trigger] n.open[j]) by {
            assert(n.open[j] == m.open[j]);
            assert(n.open[k] == m.open[k]);
        }
    }
    assert(n.bindings_wf()) by {
        assert forall|c: int| 0 <= c < n.bindings.len() implies 0 <= (#[trigger] n.bindings[c]).scope
            < n.scopes.len() by {
            assert(n.bindings[c].scope == m.bindings[c].scope);
        }
        assert forall|c: int| #[trigger] n.is_owned(c) implies n.is_open(n.bindings[c].scope) by {
            assert(m.is_owned(c));
            assert(m.is_open(m.bindings[c].scope));
        }
        assert forall|b1: int, b2: int|
            0 <= b1 < b2 < n.bindings.len() && n.is_open((#[trigger] n.bindings[b1]).scope)
            implies n.bindings[b1].scope <= (#[trigger] n.bindings[b2]).scope by {
            assert(n.bindings[b1].scope == m.bindings[b1].scope);
            assert(n.bindings[b2].scope == m.bindings[b2].scope);
            assert(m.is_open(m.bindings[b1].scope));
        }
    }
    assert(n.ledger_wf()) by {
        assert forall|c: int| #[trigger] n.is_owned(c) implies 0 <= n.resource(c).id
            < n.ledger.len() && n.ledger[n.resource(c).id] == LedgerModel::Bound(c) by {
            assert(m.is_owned(c));
            assert(!m.dies_with(c, s));
        }
        assert forall|id: int| 0 <= id < n.ledger.len() implies (
        #[trigger] n.ledger[id] matches LedgerModel::Bound(c) ==> n.is_owned(c) && n.resource(c).id
            == id) by {
            if let LedgerModel::Bound(c) = m.ledger[id] {
                assert(m.is_owned(c));
            }
        }
    }
    assert(n.borrows_wf()) by {
        assert forall|i: int| 0 <= i < n.borrows.len() && (#[trigger] n.borrows[i]).active implies {
            &&& n.is_owned(n.borrows[i].binding)
            &&& n.is_open(n.borrows[i].holder)
            &&& n.borrows[i].holder >= n.bindings[n.borrows[i].binding].scope
            &&& n.borrows[i].range matches Some(window) ==> {
                &&& n.borrows[i].kind == BorrowKind::Shared
                &&& 0 <= window.0 <= window.1 <= n.resource(n.borrows[i].binding).length()
            }
        } by {
            assert(m.borrows[i].active);
            assert(m.borrows[i].holder != s);
            assert(m.is_owned(m.borrows[i].binding));
            assert(m.is_open(m.borrows[i].holder));
            lemma_top_is_latest(m, m.borrows[i].holder);
        }
    }
    assert(n.exclusive_alone()) by {
        assert forall|i: int, j: int|
            0 <= i < n.borrows.len() && 0 <= j < n.borrows.len() && i != j && (
            #[trigger] n.borrows[i]).active && (#[trigger] n.borrows[j]).active
                && n.borrows[i].binding == n.borrows[j].binding implies n.borrows[i].kind
            == BorrowKind::Shared by {
            assert(m.borrows[i].active && m.borrows[j].active);
        }
    }
}

pub proof fn lemma_exit_scope_wf(m: TrackerModel, s: int)
    requires
        m.wf(),
        m.is_open(s),
    ensures
        m.exit_scope(s).wf(),
        !m.exit_scope(s).is_open(s),
        m.exit_scope(s).open.len() < m.open.len(),
    decreases m.open.len(),
{
    lemma_top_is_latest(m, s);
    lemma_pop_wf(m);
    lemma_pop_open(m, s);
    if m.open.last() != s {
        lemma_exit_scope_wf(m.pop(), s);
    }
}

} // verus!
