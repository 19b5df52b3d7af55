use ownership_tracker::error::OwnershipError;
use ownership_tracker::handles::{BindingId, BorrowId, ScopeId};
use ownership_tracker::model::{BindingState, BorrowKind};
use ownership_tracker::resource::ResourceKind;
use ownership_tracker::tracker::Tracker;

fn text(t: &mut Tracker, s: &str) -> ownership_tracker::resource::Resource {
    t.allocate(ResourceKind::Growable, s.as_bytes().to_vec())
}

#[test]
fn new_tracker_has_the_outermost_scope_open() {
    let t = Tracker::new();
    assert_eq!(t.current_scope(), Some(ScopeId(0)));
    assert!(t.is_open(ScopeId(0)));
    assert_eq!(t.parent(ScopeId(0)), None);
    assert!(!t.is_owned(BindingId(0)));
}

#[test]
fn move_then_access_is_use_after_move() {
    let mut t = Tracker::new();
    let hello = text(&mut t, "hello");
    let x = t.declare("x", hello, false).unwrap();
    let moved = t.move_out(x).unwrap();
    assert_eq!(moved.contents().as_slice(), b"hello");
    assert_eq!(t.length(x), Err(OwnershipError::UseAfterMove));
    assert!(!t.is_owned(x));
}

#[test]
fn every_use_after_a_move_fails() {
    let mut t = Tracker::new();
    let hello = text(&mut t, "hello");
    let other = text(&mut t, "other");
    let x = t.declare("x", hello, true).unwrap();
    let _moved = t.move_out(x).unwrap();
    assert_eq!(t.move_out(x).unwrap_err(), OwnershipError::UseAfterMove);
    assert_eq!(t.copy(x).unwrap_err(), OwnershipError::UseAfterMove);
    assert_eq!(t.borrow(x, BorrowKind::Shared), Err(OwnershipError::UseAfterMove));
    assert_eq!(t.borrow(x, BorrowKind::Exclusive), Err(OwnershipError::UseAfterMove));
    assert_eq!(t.borrow_in(x, BorrowKind::Shared, ScopeId(0)), Err(OwnershipError::UseAfterMove));
    assert_eq!(t.slice(x, 0, 1), Err(OwnershipError::UseAfterMove));
    assert_eq!(t.assign(x, other), Err(OwnershipError::UseAfterMove));
    assert_eq!(t.length(x), Err(OwnershipError::UseAfterMove));
    let inner = t.enter_scope();
    t.exit_scope(inner).unwrap();
    assert_eq!(t.move_out(x).unwrap_err(), OwnershipError::UseAfterMove);
}

#[test]
fn a_moved_resource_keeps_its_identity_under_a_new_name() {
    let mut t = Tracker::new();
    let hello = text(&mut t, "hello");
    let id = hello.id();
    let s6 = t.declare("s6", hello, false).unwrap();
    let moved = t.move_out(s6).unwrap();
    assert_eq!(moved.id(), id);
    let s7 = t.declare("s7", moved, false).unwrap();
    assert_eq!(s7, BindingId(1));
    assert!(t.is_owned(s7));
    assert!(!t.is_owned(s6));
    assert_eq!(t.length(s7), Ok(5));
    assert_eq!(t.name(s7), Some("s7"));
    assert_eq!(t.name(BindingId(9)), None);
}

#[test]
fn sequential_exclusive_borrows_succeed() {
    let mut t = Tracker::new();
    let r = text(&mut t, "hello");
    let s = t.declare("s", r, true).unwrap();
    let inner = t.enter_scope();
    let r1 = t.borrow(s, BorrowKind::Exclusive).unwrap();
    assert_eq!(r1, BorrowId(0));
    assert_eq!(t.active_borrows(s), 1);
    t.exit_scope(inner).unwrap();
    assert_eq!(t.active_borrows(s), 0);
    let r2 = t.borrow(s, BorrowKind::Exclusive).unwrap();
    assert_eq!(r2, BorrowId(1));
    assert_eq!(t.active_borrows(s), 1);
}

#[test]
fn released_exclusive_borrow_makes_room_for_the_next() {
    let mut t = Tracker::new();
    let r = text(&mut t, "hello");
    let s = t.declare("s", r, true).unwrap();
    let r1 = t.borrow(s, BorrowKind::Exclusive).unwrap();
    assert_eq!(t.borrow(s, BorrowKind::Exclusive), Err(OwnershipError::BorrowConflict));
    assert_eq!(t.release(r1), Ok(()));
    assert!(t.borrow(s, BorrowKind::Exclusive).is_ok());
}

#[test]
fn shared_borrows_coexist_and_exclude_an_exclusive_one() {
    let mut t = Tracker::new();
    let r = text(&mut t, "hello");
    let s = t.declare("s", r, true).unwrap();
    let r1 = t.borrow(s, BorrowKind::Shared).unwrap();
    let r2 = t.borrow(s, BorrowKind::Shared).unwrap();
    assert_eq!(t.active_borrows(s), 2);
    assert_eq!(t.borrow(s, BorrowKind::Exclusive), Err(OwnershipError::BorrowConflict));
    t.release(r1).unwrap();
    assert_eq!(t.borrow(s, BorrowKind::Exclusive), Err(OwnershipError::BorrowConflict));
    t.release(r2).unwrap();
    assert_eq!(t.active_borrows(s), 0);
    let r3 = t.borrow(s, BorrowKind::Exclusive).unwrap();
    assert_eq!(r3, BorrowId(2));
    assert_eq!(t.borrow(s, BorrowKind::Shared), Err(OwnershipError::BorrowConflict));
    assert_eq!(t.active_borrows(s), 1);
}

#[test]
fn a_failed_borrow_changes_nothing() {
    let mut t = Tracker::new();
    let r = text(&mut t, "hello");
    let s = t.declare("s", r, true).unwrap();
    t.borrow(s, BorrowKind::Exclusive).unwrap();
    assert_eq!(t.borrow(s, BorrowKind::Shared), Err(OwnershipError::BorrowConflict));
    assert_eq!(t.active_borrows(s), 1);
    assert_eq!(t.release(BorrowId(1)), Err(OwnershipError::DanglingReference));
}

#[test]
fn slices_of_hello_world() {
    let mut t = Tracker::new();
    let r = text(&mut t, "hello world");
    let s = t.declare("s", r, false).unwrap();
    assert_eq!(t.length(s), Ok(11));
    let hello = t.slice(s, 0, 5).unwrap();
    let world = t.slice(s, 6, 11).unwrap();
    assert_eq!(hello.length(), 5);
    assert_eq!(world.length(), 5);
    assert_eq!(world.start(), 6);
    assert_eq!(world.end(), 11);
    assert_eq!(world.binding(), s);
    assert_eq!(t.slice(s, 6, 12), Err(OwnershipError::BoundsError));
    assert_eq!(t.active_borrows(s), 2);
    assert_eq!(t.index(&hello, 0), Ok(b'h'));
    assert_eq!(t.index(&hello, 4), Ok(b'o'));
    assert_eq!(t.index(&hello, 5), Err(OwnershipError::BoundsError));
    assert_eq!(t.index(&world, 0), Ok(b'w'));
    assert_eq!(t.index(&world, 4), Ok(b'd'));
}

#[test]
fn slice_bounds() {
    let mut t = Tracker::new();
    let r = text(&mut t, "hello world");
    let s = t.declare("s", r, true).unwrap();
    assert_eq!(t.slice(s, 3, 2), Err(OwnershipError::BoundsError));
    assert_eq!(t.slice(s, 12, 12), Err(OwnershipError::BoundsError));
    assert_eq!(t.slice(s, 0, usize::MAX), Err(OwnershipError::BoundsError));
    let empty = t.slice(s, 11, 11).unwrap();
    assert_eq!(empty.length(), 0);
    assert_eq!(t.index(&empty, 0), Err(OwnershipError::BoundsError));
    let whole = t.slice(s, 0, 11).unwrap();
    assert_eq!(whole.length(), 11);
    assert_eq!(t.index(&whole, 10), Ok(b'd'));
}

#[test]
fn bad_bounds_come_before_a_borrow_conflict() {
    let mut t = Tracker::new();
    let r = text(&mut t, "hello");
    let s = t.declare("s", r, true).unwrap();
    let x = t.borrow(s, BorrowKind::Exclusive).unwrap();
    assert_eq!(t.slice(s, 0, 6), Err(OwnershipError::BoundsError));
    assert_eq!(t.slice(s, 0, 5), Err(OwnershipError::BorrowConflict));
    t.release(x).unwrap();
    assert!(t.slice(s, 0, 5).is_ok());
}

#[test]
fn a_view_is_a_shared_borrow() {
    let mut t = Tracker::new();
    let r = text(&mut t, "hello");
    let other = text(&mut t, "other");
    let s = t.declare("s", r, true).unwrap();
    let view = t.slice(s, 1, 3).unwrap();
    assert_eq!(t.borrow(s, BorrowKind::Exclusive), Err(OwnershipError::BorrowConflict));
    assert_eq!(t.assign(s, other), Err(OwnershipError::BorrowConflict));
    assert_eq!(t.move_out(s).unwrap_err(), OwnershipError::BorrowConflict);
    assert!(t.borrow(s, BorrowKind::Shared).is_ok());
    assert_eq!(t.index(&view, 0), Ok(b'e'));
    t.release(view.borrow()).unwrap();
    assert_eq!(t.index(&view, 0), Err(OwnershipError::DanglingReference));
}

#[test]
fn a_view_ends_with_its_scope() {
    let mut t = Tracker::new();
    let r = text(&mut t, "hello");
    let s = t.declare("s", r, true).unwrap();
    let inner = t.enter_scope();
    let view = t.slice(s, 0, 2).unwrap();
    assert_eq!(t.index(&view, 1), Ok(b'e'));
    t.exit_scope(inner).unwrap();
    assert_eq!(t.index(&view, 1), Err(OwnershipError::DanglingReference));
    assert!(t.borrow(s, BorrowKind::Exclusive).is_ok());
}

#[test]
fn copy_is_independent_of_its_source() {
    let mut t = Tracker::new();
    let r = text(&mut t, "hello");
    let source_id = r.id();
    let b = t.declare("b", r, true).unwrap();
    let copy = t.copy(b).unwrap();
    assert_ne!(copy.id(), source_id);
    assert_eq!(copy.contents().as_slice(), b"hello");
    assert_eq!(copy.kind(), ResourceKind::Growable);
    let b2 = t.declare("b2", copy, true).unwrap();
    assert!(t.is_owned(b));
    assert!(t.is_owned(b2));
    let longer = text(&mut t, "hello, world!");
    t.assign(b2, longer).unwrap();
    assert_eq!(t.length(b2), Ok(13));
    assert_eq!(t.length(b), Ok(5));
    let view = t.slice(b, 0, 5).unwrap();
    assert_eq!(t.index(&view, 4), Ok(b'o'));
}

#[test]
fn copy_of_a_fixed_resource() {
    let mut t = Tracker::new();
    let five = t.allocate(ResourceKind::Fixed, vec![5, 0, 0, 0]);
    assert_eq!(five.capacity(), None);
    let x = t.declare("x", five, false).unwrap();
    let copy = t.copy(x).unwrap();
    assert_eq!(copy.kind(), ResourceKind::Fixed);
    assert_eq!(copy.capacity(), None);
    assert_eq!(copy.contents().as_slice(), &[5, 0, 0, 0]);
    assert_eq!(copy.id(), 1);
    let y = t.declare("y", copy, false).unwrap();
    assert!(t.is_owned(x) && t.is_owned(y));
}

#[test]
fn copy_under_borrows() {
    let mut t = Tracker::new();
    let r = text(&mut t, "hello");
    let s = t.declare("s", r, true).unwrap();
    let shared = t.borrow(s, BorrowKind::Shared).unwrap();
    assert!(t.copy(s).is_ok());
    t.release(shared).unwrap();
    t.borrow(s, BorrowKind::Exclusive).unwrap();
    assert_eq!(t.copy(s).unwrap_err(), OwnershipError::BorrowConflict);
    assert_eq!(t.copy(BindingId(7)).unwrap_err(), OwnershipError::DanglingReference);
}

#[test]
fn capacity_of_a_buffer() {
    let mut t = Tracker::new();
    let roomy = t.allocate_with_capacity(vec![1, 2, 3], 16);
    assert_eq!(roomy.capacity(), Some(16));
    assert_eq!(roomy.length(), 3);
    let tight = t.allocate_with_capacity(vec![1, 2, 3], 2);
    assert_eq!(tight.capacity(), Some(3));
    let plain = t.allocate(ResourceKind::Growable, vec![1, 2]);
    assert_eq!(plain.capacity(), Some(2));
    let b = t.declare("b", roomy, false).unwrap();
    let copy = t.copy(b).unwrap();
    assert_eq!(copy.capacity(), Some(3));
}

#[test]
fn assign_replaces_and_tears_down() {
    let mut t = Tracker::new();
    let first = text(&mut t, "first");
    let second = text(&mut t, "second");
    let first_id = first.id();
    let x = t.declare("x", first, true).unwrap();
    assert!(t.is_mutable(x));
    assert_eq!(t.assign(x, second), Ok(first_id));
    assert_eq!(t.length(x), Ok(6));
}

#[test]
fn assign_needs_a_mutable_unborrowed_binding() {
    let mut t = Tracker::new();
    let first = text(&mut t, "first");
    let second = text(&mut t, "second");
    let x = t.declare("x", first, false).unwrap();
    assert!(!t.is_mutable(x));
    assert_eq!(t.assign(x, second), Err(OwnershipError::BorrowConflict));
    assert_eq!(t.length(x), Ok(5));
    let third = text(&mut t, "third");
    let fourth = text(&mut t, "fourth");
    let y = t.declare("y", third, true).unwrap();
    t.borrow(y, BorrowKind::Shared).unwrap();
    assert_eq!(t.assign(y, fourth), Err(OwnershipError::BorrowConflict));
    let fifth = text(&mut t, "fifth");
    assert_eq!(t.assign(BindingId(40), fifth), Err(OwnershipError::DanglingReference));
}

#[test]
fn a_resource_has_one_owner() {
    let mut t = Tracker::new();
    let mut forger = Tracker::new();
    let real = text(&mut t, "real");
    let forged = text(&mut forger, "fake");
    assert_eq!(real.id(), forged.id());
    let x = t.declare("x", real, true).unwrap();
    assert_eq!(t.declare("y", forged, true), Err(OwnershipError::UseAfterMove));
    assert!(t.is_owned(x));
    assert!(!t.is_owned(BindingId(1)));
    let mut forger = Tracker::new();
    let forged = text(&mut forger, "fake");
    let spare = text(&mut t, "spare");
    let z = t.declare("z", spare, true).unwrap();
    assert_eq!(t.assign(z, forged), Err(OwnershipError::UseAfterMove));
    assert_eq!(t.length(z), Ok(5));
}

#[test]
fn a_torn_down_resource_cannot_come_back() {
    let mut t = Tracker::new();
    let mut forger = Tracker::new();
    let real = text(&mut t, "real");
    let forged = text(&mut forger, "fake");
    let inner = t.enter_scope();
    t.declare("x", real, false).unwrap();
    assert_eq!(t.exit_scope(inner), Ok(vec![0]));
    assert_eq!(t.declare("y", forged, false), Err(OwnershipError::DoubleDrop));
    let forged = text(&mut forger, "fake");
    assert_eq!(forged.id(), 1);
    assert_eq!(t.declare("y", forged, false), Err(OwnershipError::DanglingReference));
}

#[test]
fn declare_needs_an_open_scope() {
    let mut t = Tracker::new();
    let r = text(&mut t, "hello");
    assert_eq!(t.exit_scope(ScopeId(0)), Ok(vec![]));
    assert_eq!(t.current_scope(), None);
    assert_eq!(t.declare("x", r, false), Err(OwnershipError::DanglingReference));
    let again = t.enter_scope();
    assert_eq!(again, ScopeId(1));
    assert_eq!(t.parent(again), None);
    let r = text(&mut t, "hello");
    assert_eq!(t.declare("x", r, false), Ok(BindingId(0)));
}

#[test]
fn teardown_is_last_in_first_out() {
    let mut t = Tracker::new();
    let a = t.enter_scope();
    let a1 = text(&mut t, "a1");
    let a2 = text(&mut t, "a2");
    let (a1_id, a2_id) = (a1.id(), a2.id());
    let x1 = t.declare("a1", a1, false).unwrap();
    let x2 = t.declare("a2", a2, false).unwrap();
    let b = t.enter_scope();
    assert_eq!(t.parent(b), Some(a));
    assert_eq!(t.parent(a), Some(ScopeId(0)));
    let b1 = text(&mut t, "b1");
    let b2 = text(&mut t, "b2");
    let b3 = text(&mut t, "b3");
    let (b1_id, b2_id, b3_id) = (b1.id(), b2.id(), b3.id());
    let y1 = t.declare("b1", b1, false).unwrap();
    let y2 = t.declare("b2", b2, false).unwrap();
    let y3 = t.declare("b3", b3, false).unwrap();
    assert_eq!(t.scope_of(y1), Some(b));
    assert_eq!(t.scope_of(x1), Some(a));
    assert_eq!(t.exit_scope(b), Ok(vec![b3_id, b2_id, b1_id]));
    assert!(t.is_open(a));
    assert!(!t.is_open(b));
    assert!(t.is_owned(x1) && t.is_owned(x2));
    assert!(!t.is_owned(y1) && !t.is_owned(y2) && !t.is_owned(y3));
    assert_eq!(t.length(y1), Err(OwnershipError::DanglingReference));
    assert_eq!(t.borrow(y2, BorrowKind::Shared), Err(OwnershipError::DanglingReference));
    assert_eq!(t.exit_scope(a), Ok(vec![a2_id, a1_id]));
    assert!(!t.is_owned(x1) && !t.is_owned(x2));
    assert_eq!(t.current_scope(), Some(ScopeId(0)));
}

#[test]
fn exiting_an_outer_scope_ends_the_inner_ones_first() {
    let mut t = Tracker::new();
    let a = t.enter_scope();
    let a1 = text(&mut t, "a1");
    t.declare("a1", a1, false).unwrap();
    let b = t.enter_scope();
    let b1 = text(&mut t, "b1");
    let b2 = text(&mut t, "b2");
    t.declare("b1", b1, false).unwrap();
    t.declare("b2", b2, false).unwrap();
    let c = t.enter_scope();
    let c1 = text(&mut t, "c1");
    t.declare("c1", c1, false).unwrap();
    assert_eq!(t.exit_scope(a), Ok(vec![3, 2, 1, 0]));
    assert!(!t.is_open(a) && !t.is_open(b) && !t.is_open(c));
    assert!(t.is_open(ScopeId(0)));
}

#[test]
fn a_moved_binding_is_not_torn_down() {
    let mut t = Tracker::new();
    let inner = t.enter_scope();
    let kept = text(&mut t, "kept");
    let gone = text(&mut t, "gone");
    let kept_id = kept.id();
    t.declare("kept", kept, false).unwrap();
    let g = t.declare("gone", gone, false).unwrap();
    let moved = t.move_out(g).unwrap();
    assert_eq!(t.exit_scope(inner), Ok(vec![kept_id]));
    assert_eq!(t.length(g), Err(OwnershipError::UseAfterMove));
    let outer = t.declare("outer", moved, false).unwrap();
    assert_eq!(t.length(outer), Ok(4));
}

#[test]
fn a_scope_ends_once() {
    let mut t = Tracker::new();
    let inner = t.enter_scope();
    let r = text(&mut t, "r");
    t.declare("r", r, false).unwrap();
    assert_eq!(t.exit_scope(inner), Ok(vec![0]));
    assert_eq!(t.exit_scope(inner), Err(OwnershipError::DoubleDrop));
    assert_eq!(t.exit_scope(ScopeId(17)), Err(OwnershipError::DoubleDrop));
    assert!(t.is_open(ScopeId(0)));
}

#[test]
fn a_borrow_may_not_outlive_its_binding() {
    let mut t = Tracker::new();
    let outer = t.current_scope().unwrap();
    let inner = t.enter_scope();
    let r = text(&mut t, "hello");
    let s = t.declare("s", r, false).unwrap();
    assert_eq!(t.borrow_in(s, BorrowKind::Shared, outer), Err(OwnershipError::DanglingReference));
    assert_eq!(t.borrow_in(s, BorrowKind::Shared, ScopeId(5)), Err(OwnershipError::DanglingReference));
    assert_eq!(t.active_borrows(s), 0);
    assert_eq!(t.borrow_in(s, BorrowKind::Shared, inner), Ok(BorrowId(0)));
    let deeper = t.enter_scope();
    assert_eq!(t.borrow_in(s, BorrowKind::Shared, deeper), Ok(BorrowId(1)));
    assert_eq!(t.borrow_in(s, BorrowKind::Shared, inner), Ok(BorrowId(2)));
    t.exit_scope(deeper).unwrap();
    assert_eq!(t.active_borrows(s), 2);
    assert_eq!(t.borrow(BindingId(3), BorrowKind::Shared), Err(OwnershipError::DanglingReference));
}

#[test]
fn release_ends_a_borrow_once() {
    let mut t = Tracker::new();
    let r = text(&mut t, "hello");
    let s = t.declare("s", r, false).unwrap();
    let b = t.borrow(s, BorrowKind::Shared).unwrap();
    assert_eq!(t.release(b), Ok(()));
    assert_eq!(t.release(b), Err(OwnershipError::DanglingReference));
    assert_eq!(t.release(BorrowId(3)), Err(OwnershipError::DanglingReference));
}

#[test]
fn move_out_of_a_borrowed_binding_is_refused() {
    let mut t = Tracker::new();
    let r = text(&mut t, "hello");
    let s = t.declare("s", r, false).unwrap();
    let b = t.borrow(s, BorrowKind::Shared).unwrap();
    assert_eq!(t.move_out(s).unwrap_err(), OwnershipError::BorrowConflict);
    assert!(t.is_owned(s));
    t.release(b).unwrap();
    assert_eq!(t.move_out(s).unwrap().contents().as_slice(), b"hello");
    assert_eq!(t.move_out(BindingId(2)).unwrap_err(), OwnershipError::DanglingReference);
}

#[test]
fn errors_describe_themselves() {
    assert_eq!(OwnershipError::UseAfterMove.describe(), "use of a moved resource");
    assert_eq!(OwnershipError::BorrowConflict.describe(), "conflicting borrow");
    assert_eq!(OwnershipError::DanglingReference.describe(), "dangling reference");
    assert_eq!(OwnershipError::BorrowOutlivesScope.describe(), "borrow outlives its scope");
    assert_eq!(OwnershipError::BoundsError.describe(), "range out of bounds");
    assert_eq!(OwnershipError::DoubleDrop.describe(), "resource torn down twice");
}

#[test]
fn a_binding_goes_through_its_states() {
    let mut t = Tracker::new();
    let inner = t.enter_scope();
    let r = text(&mut t, "hello");
    let q = text(&mut t, "again");
    assert_eq!(t.state(BindingId(0)), None);
    let s = t.declare("s", r, true).unwrap();
    let k = t.declare("k", q, true).unwrap();
    assert_eq!(t.state(s), Some(BindingState::Owned));
    let b1 = t.borrow(s, BorrowKind::Shared).unwrap();
    assert_eq!(t.state(s), Some(BindingState::Borrowed(BorrowKind::Shared)));
    t.release(b1).unwrap();
    assert_eq!(t.state(s), Some(BindingState::Owned));
    let b2 = t.borrow(s, BorrowKind::Exclusive).unwrap();
    assert_eq!(t.state(s), Some(BindingState::Borrowed(BorrowKind::Exclusive)));
    t.release(b2).unwrap();
    let _moved = t.move_out(s).unwrap();
    assert_eq!(t.state(s), Some(BindingState::MovedOut));
    assert_eq!(t.state(k), Some(BindingState::Owned));
    t.exit_scope(inner).unwrap();
    assert_eq!(t.state(s), Some(BindingState::MovedOut));
    assert_eq!(t.state(k), Some(BindingState::Dropped));
}
