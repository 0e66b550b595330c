//! Laws of the store that relate several operations, proved over the
//! model that the operations' own contracts use.
use vstd::prelude::*;
use crate::store::{
    StoreError,
    StoreView,
    ValueView,
    MutationView,
    lemma_last_named,
    lemma_last_named_push,
    lemma_last_named_update,
    kept_bindings,
    kept_borrows,
};

verus! {

/// Once a buffer has been moved from `a` to another binding `b`, every
/// reference to `a` fails with `UseAfterMove`: reading, moving, copying,
/// cloning, borrowing and mutating it.
pub proof fn lemma_move_invalidates_source(s: StoreView, a: u64, b: u64, mutable: bool)
    requires
        s.wf(),
        a != b,
        s.move_step(a, b, mutable) is Ok,
    ensures
        ({
            let t = s.move_step(a, b, mutable).unwrap();
            &&& t.read_error(a) == Some(StoreError::UseAfterMove)
            &&& t.write_error(a) == Some(StoreError::UseAfterMove)
            &&& forall|c: u64, m: bool| #[trigger] t.move_step(a, c, m) == Err::<StoreView, StoreError>(StoreError::UseAfterMove)
            &&& forall|c: u64, m: bool| #[trigger] t.copy_step(a, c, m) == Err::<StoreView, StoreError>(StoreError::UseAfterMove)
            &&& forall|c: u64, m: bool| #[trigger] t.clone_step(a, c, m) == Err::<StoreView, StoreError>(StoreError::UseAfterMove)
            &&& t.borrow_immutable_step(a) == Err::<StoreView, StoreError>(StoreError::UseAfterMove)
            &&& t.borrow_mutable_step(a) == Err::<StoreView, StoreError>(StoreError::UseAfterMove)
            &&& forall|op: MutationView| #[trigger] t.mutate_step(a, op) == Err::<StoreView, StoreError>(StoreError::UseAfterMove)
        }),
{
    let i = s.visible(a).unwrap();
    lemma_last_named(s.bindings, a);
    let bi = s.bindings[i];
    let mid = s.bindings.update(i, crate::store::BindingView { moved: true, value: ValueView::Buffer(Seq::empty()), ..bi });
    lemma_last_named_update(s.bindings, i, crate::store::BindingView { moved: true, value: ValueView::Buffer(Seq::empty()), ..bi }, a);
    lemma_last_named_push(mid, crate::store::BindingView { name: b, value: bi.value, mutable, moved: false, depth: s.depth }, a);
}

/// A binding `b` freshly made from `a` (by a copy or a clone) holds the
/// same value as `a`; both can be read; and mutating either one leaves the
/// other as it was and still readable.
proof fn lemma_fresh_binding_independent(s: StoreView, t: StoreView, a: u64, b: u64)
    requires
        s.wf(),
        a != b,
        s.read_error(a) is None,
        t == s.push_binding(b, s.value_of(a), t.bindings.last().mutable),
        t.bindings.len() > 0,
    ensures
        t.read_error(a) is None,
        t.read_error(b) is None,
        t.value_of(a) == s.value_of(a),
        t.value_of(b) == s.value_of(a),
        forall|op: MutationView| #[trigger] t.mutate_step(b, op) is Ok ==> {
            let u = t.mutate_step(b, op).unwrap();
            u.read_error(a) is None && u.value_of(a) == t.value_of(a)
        },
        forall|op: MutationView| #[trigger] t.mutate_step(a, op) is Ok ==> {
            let u = t.mutate_step(a, op).unwrap();
            u.read_error(b) is None && u.value_of(b) == t.value_of(b)
        },
{
    let n = s.bindings.len() as int;
    let nb = t.bindings.last();
    lemma_last_named(s.bindings, a);
    lemma_last_named_push(s.bindings, nb, a);
    lemma_last_named_push(s.bindings, nb, b);
    let i = s.visible(a).unwrap();
    assert(t.visible(a) == Some(i));
    assert(t.visible(b) == Some(n));
    assert(t.bindings[i] == s.bindings[i]);
    assert(!t.borrowed_mutably(n)) by {
        if t.borrowed_mutably(n) {
            let k = choose|k: int| 0 <= k < t.borrows.len() && #[trigger] t.borrows[k].target == n && t.borrows[k].exclusive;
            assert(s.borrows[k].target < s.bindings.len());
        }
    }
    assert forall|op: MutationView| #[trigger] t.mutate_step(b, op) is Ok implies {
        let u = t.mutate_step(b, op).unwrap();
        u.read_error(a) is None && u.value_of(a) == t.value_of(a)
    } by {
        let u = t.mutate_step(b, op).unwrap();
        lemma_last_named_update(t.bindings, n, u.bindings[n], a);
        assert(u.bindings[i] == t.bindings[i]);
        assert(u.borrows == t.borrows);
    }
    assert forall|op: MutationView| #[trigger] t.mutate_step(a, op) is Ok implies {
        let u = t.mutate_step(a, op).unwrap();
        u.read_error(b) is None && u.value_of(b) == t.value_of(b)
    } by {
        let u = t.mutate_step(a, op).unwrap();
        lemma_last_named_update(t.bindings, i, u.bindings[i], b);
        assert(u.bindings[n] == t.bindings[n]);
        assert(u.borrows == t.borrows);
    }
}

/// After `copy(a, b)` of a scalar, `a` and `b` are both usable and hold the
/// scalar; mutating one of them leaves the other as it was.
pub proof fn lemma_copy_independent(s: StoreView, a: u64, b: u64, mutable: bool)
    requires
        s.wf(),
        a != b,
        s.copy_step(a, b, mutable) is Ok,
    ensures
        ({
            let t = s.copy_step(a, b, mutable).unwrap();
            &&& t.read_error(a) is None
            &&& t.read_error(b) is None
            &&& t.value_of(a) == s.value_of(a)
            &&& t.value_of(b) == s.value_of(a)
            &&& forall|op: MutationView| #[trigger] t.mutate_step(b, op) is Ok ==> {
                let u = t.mutate_step(b, op).unwrap();
                u.read_error(a) is None && u.value_of(a) == t.value_of(a)
            }
            &&& forall|op: MutationView| #[trigger] t.mutate_step(a, op) is Ok ==> {
                let u = t.mutate_step(a, op).unwrap();
                u.read_error(b) is None && u.value_of(b) == t.value_of(b)
            }
        }),
{
    let t = s.copy_step(a, b, mutable).unwrap();
    lemma_fresh_binding_independent(s, t, a, b);
}

/// After `clone(a, b)`, `a` and `b` are both usable and hold equal values;
/// mutating one of them never changes the other's content.
pub proof fn lemma_clone_independent(s: StoreView, a: u64, b: u64, mutable: bool)
    requires
        s.wf(),
        a != b,
        s.clone_step(a, b, mutable) is Ok,
    ensures
        ({
            let t = s.clone_step(a, b, mutable).unwrap();
            &&& t.read_error(a) is None
            &&& t.read_error(b) is None
            &&& t.value_of(a) == s.value_of(a)
            &&& t.value_of(b) == s.value_of(a)
            &&& forall|op: MutationView| #[trigger] t.mutate_step(b, op) is Ok ==> {
                let u = t.mutate_step(b, op).unwrap();
                u.read_error(a) is None && u.value_of(a) == t.value_of(a)
            }
            &&& forall|op: MutationView| #[trigger] t.mutate_step(a, op) is Ok ==> {
                let u = t.mutate_step(a, op).unwrap();
                u.read_error(b) is None && u.value_of(b) == t.value_of(b)
            }
        }),
{
    let t = s.clone_step(a, b, mutable).unwrap();
    lemma_fresh_binding_independent(s, t, a, b);
}

/// While a mutable borrow of `x` is alive, a second `borrow_mutable(x)`
/// fails with `AliasConflict`.
pub proof fn lemma_second_mutable_borrow_conflicts(s: StoreView, x: u64)
    requires
        s.wf(),
        s.borrow_mutable_step(x) is Ok,
    ensures
        s.borrow_mutable_step(x).unwrap().borrow_mutable_step(x) == Err::<StoreView, StoreError>(
            StoreError::AliasConflict,
        ),
{
    let t = s.borrow_mutable_step(x).unwrap();
    let i = s.visible(x).unwrap();
    lemma_last_named(s.bindings, x);
    assert(t.borrows[s.borrows.len() as int].target == i);
}

/// `borrow_immutable(x)` repeated `n` times from `s`.
pub open spec fn borrow_immutable_times(s: StoreView, x: u64, n: nat) -> Result<StoreView, StoreError>
    decreases n,
{
    if n == 0 {
        Ok(s)
    } else {
        match borrow_immutable_times(s, x, (n - 1) as nat) {
            Ok(t) => t.borrow_immutable_step(x),
            Err(e) => Err(e),
        }
    }
}

/// Any number of immutable borrows of a usable binding `x` succeed, one
/// after another, and leave `x` readable; while at least one of them is
/// alive, `borrow_mutable(x)` fails with `AliasConflict`.
pub proof fn lemma_immutable_borrows_share(s: StoreView, x: u64, n: nat)
    requires
        s.wf(),
        s.read_error(x) is None,
    ensures
        borrow_immutable_times(s, x, n) is Ok,
        borrow_immutable_times(s, x, n).unwrap().read_error(x) is None,
        borrow_immutable_times(s, x, n).unwrap().bindings == s.bindings,
        n > 0 ==> borrow_immutable_times(s, x, n).unwrap().borrow_mutable_step(x) == Err::<
            StoreView,
            StoreError,
        >(StoreError::AliasConflict),
    decreases n,
{
    if n > 0 {
        lemma_immutable_borrows_share(s, x, (n - 1) as nat);
        let t = borrow_immutable_times(s, x, (n - 1) as nat).unwrap();
        let u = t.borrow_immutable_step(x).unwrap();
        let i = t.visible(x).unwrap();
        lemma_last_named(t.bindings, x);
        assert(u.bindings == t.bindings);
        assert(u.borrows[t.borrows.len() as int].target == i);
        assert(!u.borrowed_mutably(i)) by {
            if u.borrowed_mutably(i) {
                let k = choose|k: int|
                    0 <= k < u.borrows.len() && #[trigger] u.borrows[k].target == i
                        && u.borrows[k].exclusive;
                assert(t.borrows[k].target == i);
            }
        }
    }
}

/// A mutable borrow of `x` taken in a nested scope is released when that
/// scope ends: the store is back where it was, and `borrow_mutable(x)`
/// succeeds again in the outer scope.
pub proof fn lemma_scoped_mutable_borrow_released(s: StoreView, x: u64)
    requires
        s.wf(),
        s.depth < usize::MAX,
        s.begin_scope_step().borrow_mutable_step(x) is Ok,
    ensures
        s.begin_scope_step().borrow_mutable_step(x).unwrap().end_scope_step() == Ok::<
            StoreView,
            StoreError,
        >(s),
        s.borrow_mutable_step(x) is Ok,
{
    let t1 = s.begin_scope_step();
    let t2 = t1.borrow_mutable_step(x).unwrap();
    let d = t1.depth;
    assert(t2.borrows.drop_last() =~= s.borrows);
    assert(kept_borrows(t2.borrows, d) == kept_borrows(s.borrows, d));
    assert(kept_borrows(s.borrows, d) == s.borrows) by {
        if s.borrows.len() > 0 {
            assert(s.borrows.last().depth <= s.depth);
        }
    }
    assert(kept_bindings(s.bindings, d) == s.bindings) by {
        if s.bindings.len() > 0 {
            assert(s.bindings.last().depth <= s.depth);
        }
    }
    assert(t2.end_scope_step().unwrap() == s);
}

} // verus!
