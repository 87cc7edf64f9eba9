use vstd::prelude::*;
use vstd::std_specs::cmp::PartialEqSpec;

use crate::equivalence::eq_is_equivalence;
use crate::set::{removal_outcome, ExclusionSet, RemoveOutcome, WaitOutcome};

verus! {

/// One call on the set, as the laws about runs of calls describe it.
pub enum Op<T> {
    TryInsert(T),
    WaitToInsert(T, u64),
    Remove(T),
}

/// What one call on the set returned.
pub enum Reply {
    Inserted(bool),
    Waited(WaitOutcome),
    Removed(RemoveOutcome),
}

/// The call `op` takes `pre` to `post` and returns `reply`, as the
/// operations' contracts say.
pub open spec fn step<T: Eq>(pre: ExclusionSet<T>, op: Op<T>, post: ExclusionSet<T>, reply: Reply) -> bool {
    match op {
        Op::TryInsert(v) => reply matches Reply::Inserted(r) && pre.try_insert_spec(v, post, r),
        Op::WaitToInsert(v, t) => reply matches Reply::Waited(r) && pre.wait_to_insert_spec(
            v,
            t,
            post,
            r,
        ),
        Op::Remove(v) => reply == Reply::Removed(removal_outcome(pre.state_of(v))) && pre.remove_spec(
            v,
            post,
        ),
    }
}

/// `sets[0]`, `sets[1]`, ... are the valid sets that the calls `ops` pass
/// through, returning `replies`.
pub open spec fn is_run<T: Eq>(sets: Seq<ExclusionSet<T>>, ops: Seq<Op<T>>, replies: Seq<Reply>) -> bool {
    &&& sets.len() == ops.len() + 1
    &&& replies.len() == ops.len()
    &&& forall|i: int| 0 <= i < sets.len() ==> #[trigger] sets[i].wf()
    &&& forall|i: int| 0 <= i < ops.len() ==> step(sets[i], ops[i], sets[i + 1], #[trigger] replies[i])
}

/// Once `try_insert` of a value has returned, whatever it returned, a
/// `try_insert` of an equal value returns `false`: a value can only be
/// inserted once until it is removed.
pub proof fn law_insert_is_exclusive<T: Eq>(
    a: ExclusionSet<T>,
    b: ExclusionSet<T>,
    c: ExclusionSet<T>,
    v: T,
    w: T,
    r1: bool,
    r2: bool,
)
    requires
        eq_is_equivalence::<T>(),
        a.wf(),
        b.wf(),
        a.try_insert_spec(v, b, r1),
        b.try_insert_spec(w, c, r2),
        w.eq_spec(&v),
    ensures
        !r2,
{
    b.lemma_state_respects_eq(w, v);
}

/// A `remove` right after a successful `try_insert` of the same value
/// vacates it, and gives back the statuses the set had before the insert.
pub proof fn law_remove_undoes_insert<T: Eq>(
    a: ExclusionSet<T>,
    b: ExclusionSet<T>,
    c: ExclusionSet<T>,
    v: T,
)
    requires
        eq_is_equivalence::<T>(),
        a.wf(),
        b.wf(),
        c.wf(),
        a.try_insert_spec(v, b, true),
        b.remove_spec(v, c),
    ensures
        removal_outcome(b.state_of(v)) == RemoveOutcome::Vacated,
        forall|w: T| #[trigger] c.state_of(w) == a.state_of(w),
{
    assert forall|w: T| #[trigger] c.state_of(w) == a.state_of(w) by {
        if w.eq_spec(&v) {
            a.lemma_state_respects_eq(w, v);
            c.lemma_state_respects_eq(w, v);
        }
    }
}

/// A value that was held with nobody waiting can be inserted again once it
/// has been removed, and removing it a second time reports it absent.
pub proof fn law_insert_after_remove<T: Eq>(
    a: ExclusionSet<T>,
    b: ExclusionSet<T>,
    c: ExclusionSet<T>,
    v: T,
    r: bool,
)
    requires
        eq_is_equivalence::<T>(),
        a.wf(),
        b.wf(),
        a.state_of(v) == Some(Seq::<u64>::empty()),
        a.remove_spec(v, b),
        b.try_insert_spec(v, c, r),
    ensures
        removal_outcome(a.state_of(v)) == RemoveOutcome::Vacated,
        removal_outcome(b.state_of(v)) == RemoveOutcome::Absent,
        r,
{
}

/// Removing a value that is absent changes no status.
pub proof fn law_remove_absent_changes_nothing<T: Eq>(
    a: ExclusionSet<T>,
    b: ExclusionSet<T>,
    v: T,
)
    requires
        eq_is_equivalence::<T>(),
        a.wf(),
        b.wf(),
        a.state_of(v) is None,
        a.remove_spec(v, b),
    ensures
        removal_outcome(a.state_of(v)) == RemoveOutcome::Absent,
        forall|w: T| #[trigger] b.state_of(w) == a.state_of(w),
{
    assert forall|w: T| #[trigger] b.state_of(w) == a.state_of(w) by {
        if w.eq_spec(&v) {
            a.lemma_state_respects_eq(w, v);
            b.lemma_state_respects_eq(w, v);
        }
    }
}

/// A caller that `wait_to_insert` queued is waiting for the value, and the
/// next `remove` of the value hands it to that caller and gives back the
/// statuses the set had before it was queued.
pub proof fn law_remove_serves_last_waiter<T: Eq>(
    a: ExclusionSet<T>,
    b: ExclusionSet<T>,
    c: ExclusionSet<T>,
    v: T,
    t: u64,
)
    requires
        eq_is_equivalence::<T>(),
        a.wf(),
        b.wf(),
        c.wf(),
        a.wait_to_insert_spec(v, t, b, WaitOutcome::Queued),
        b.remove_spec(v, c),
    ensures
        b.queued_for(v, t),
        removal_outcome(b.state_of(v)) == RemoveOutcome::HandedTo(t),
        forall|w: T| #[trigger] c.state_of(w) == a.state_of(w),
{
    let q = a.state_of(v)->0;
    assert(q.push(t).drop_last() =~= q);
    assert(q.push(t)[q.len() as int] == t);
    assert forall|w: T| #[trigger] c.state_of(w) == a.state_of(w) by {
        if w.eq_spec(&v) {
            a.lemma_state_respects_eq(w, v);
            c.lemma_state_respects_eq(w, v);
        }
    }
}

/// A value's waiters are only ever added by `wait_to_insert` and served by
/// `remove`: a value that `try_insert` finds held keeps its waiters.
pub proof fn law_try_insert_keeps_waiters<T: Eq>(
    a: ExclusionSet<T>,
    b: ExclusionSet<T>,
    v: T,
    r: bool,
)
    requires
        eq_is_equivalence::<T>(),
        a.wf(),
        a.state_of(v) is Some,
        a.try_insert_spec(v, b, r),
    ensures
        !r,
        b.state_of(v) == a.state_of(v),
{
}

/// Two sets made by `new` or `default` have the same model.
pub proof fn law_fresh_sets_agree<T: Eq>(a: ExclusionSet<T>, b: ExclusionSet<T>)
    requires
        a.entries() == Seq::<T>::empty(),
        b.entries() == Seq::<T>::empty(),
        forall|v: T| #[trigger] a.state_of(v) is None,
        forall|v: T| #[trigger] b.state_of(v) is None,
    ensures
        a.same_model(b),
{
    assert forall|v: T| #[trigger] a.state_of(v) == b.state_of(v) by {
        assert(a.state_of(v) is None);
        assert(b.state_of(v) is None);
    }
}

/// On sets with the same model, `try_insert` of a value returns the same
/// result and leaves sets with the same model.
pub proof fn law_same_model_try_insert<T: Eq>(
    a: ExclusionSet<T>,
    b: ExclusionSet<T>,
    a1: ExclusionSet<T>,
    b1: ExclusionSet<T>,
    v: T,
    ra: bool,
    rb: bool,
)
    requires
        eq_is_equivalence::<T>(),
        a1.wf(),
        b1.wf(),
        a.same_model(b),
        a.try_insert_spec(v, a1, ra),
        b.try_insert_spec(v, b1, rb),
    ensures
        ra == rb,
        a1.same_model(b1),
{
    a.lemma_entries_determine_known(b);
    assert(a.state_of(v) == b.state_of(v));
    assert forall|w: T| #[trigger] a1.state_of(w) == b1.state_of(w) by {
        assert(a.state_of(w) == b.state_of(w));
        if w.eq_spec(&v) {
            a1.lemma_state_respects_eq(w, v);
            b1.lemma_state_respects_eq(w, v);
        }
    }
}

/// On sets with the same model, `wait_to_insert` of a value with a ticket
/// returns the same outcome and leaves sets with the same model.
pub proof fn law_same_model_wait_to_insert<T: Eq>(
    a: ExclusionSet<T>,
    b: ExclusionSet<T>,
    a1: ExclusionSet<T>,
    b1: ExclusionSet<T>,
    v: T,
    t: u64,
    ra: WaitOutcome,
    rb: WaitOutcome,
)
    requires
        eq_is_equivalence::<T>(),
        a1.wf(),
        b1.wf(),
        a.same_model(b),
        a.wait_to_insert_spec(v, t, a1, ra),
        b.wait_to_insert_spec(v, t, b1, rb),
    ensures
        ra == rb,
        a1.same_model(b1),
{
    a.lemma_entries_determine_known(b);
    assert(a.state_of(v) == b.state_of(v));
    assert forall|w: T| #[trigger] a1.state_of(w) == b1.state_of(w) by {
        assert(a.state_of(w) == b.state_of(w));
        if w.eq_spec(&v) {
            a1.lemma_state_respects_eq(w, v);
            b1.lemma_state_respects_eq(w, v);
        }
    }
}

/// On sets with the same model, a removal of a value reports the same
/// outcome and leaves sets with the same model.
pub proof fn law_same_model_remove<T: Eq>(
    a: ExclusionSet<T>,
    b: ExclusionSet<T>,
    a1: ExclusionSet<T>,
    b1: ExclusionSet<T>,
    v: T,
)
    requires
        eq_is_equivalence::<T>(),
        a1.wf(),
        b1.wf(),
        a.same_model(b),
        a.remove_spec(v, a1),
        b.remove_spec(v, b1),
    ensures
        removal_outcome(a.state_of(v)) == removal_outcome(b.state_of(v)),
        a1.same_model(b1),
{
    assert(a.state_of(v) == b.state_of(v));
    assert forall|w: T| #[trigger] a1.state_of(w) == b1.state_of(w) by {
        assert(a.state_of(w) == b.state_of(w));
        if w.eq_spec(&v) {
            a1.lemma_state_respects_eq(w, v);
            b1.lemma_state_respects_eq(w, v);
        }
    }
}

/// After the first of a run of `try_insert` calls of equal values, every
/// later one returns `false`, the value stays held with nobody waiting, and
/// the entries stay as the first call left them.
proof fn lemma_later_inserts_fail<T: Eq>(
    sets: Seq<ExclusionSet<T>>,
    vs: Seq<T>,
    rs: Seq<bool>,
    v: T,
    i: int,
)
    requires
        eq_is_equivalence::<T>(),
        rs.len() >= 1,
        sets.len() == rs.len() + 1,
        vs.len() == rs.len(),
        forall|j: int| 0 <= j < sets.len() ==> #[trigger] sets[j].wf(),
        forall|j: int|
            0 <= j < rs.len() ==> sets[j].try_insert_spec(vs[j], sets[j + 1], #[trigger] rs[j]),
        forall|j: int| 0 <= j < vs.len() ==> #[trigger] vs[j].eq_spec(&v),
        sets[0].state_of(v) is None,
        1 <= i < sets.len(),
    ensures
        sets[i].state_of(v) == Some(Seq::<u64>::empty()),
        sets[i].entries() == sets[1].entries(),
        forall|j: int| 1 <= j < i ==> !#[trigger] rs[j],
    decreases i,
{
    sets[0].lemma_state_respects_eq(vs[0], v);
    sets[1].lemma_state_respects_eq(vs[0], v);
    assert(sets[0].try_insert_spec(vs[0], sets[1], rs[0]));
    if i > 1 {
        lemma_later_inserts_fail(sets, vs, rs, v, i - 1);
        let p = sets[i - 1];
        assert(p.try_insert_spec(vs[i - 1], sets[i], rs[i - 1]));
        assert(vs[i - 1].eq_spec(&v));
        p.lemma_state_respects_eq(vs[i - 1], v);
        sets[i].lemma_state_respects_eq(vs[i - 1], v);
        sets[i - 1].lemma_held_was_inserted(vs[i - 1]);
    }
}

/// Of a run of `try_insert` calls of equal values on a set where the value
/// is absent, with nothing else in between, exactly one returns `true`: the
/// first.  Afterwards the value is held with nobody waiting, and it has one
/// entry, added by the first call.
pub proof fn law_one_of_many_inserts_succeeds<T: Eq>(
    sets: Seq<ExclusionSet<T>>,
    vs: Seq<T>,
    rs: Seq<bool>,
    v: T,
)
    requires
        eq_is_equivalence::<T>(),
        rs.len() >= 1,
        sets.len() == rs.len() + 1,
        vs.len() == rs.len(),
        forall|j: int| 0 <= j < sets.len() ==> #[trigger] sets[j].wf(),
        forall|j: int|
            0 <= j < rs.len() ==> sets[j].try_insert_spec(vs[j], sets[j + 1], #[trigger] rs[j]),
        forall|j: int| 0 <= j < vs.len() ==> #[trigger] vs[j].eq_spec(&v),
        sets[0].state_of(v) is None,
    ensures
        rs[0],
        forall|j: int| 1 <= j < rs.len() ==> !#[trigger] rs[j],
        sets.last().state_of(v) == Some(Seq::<u64>::empty()),
        sets.last().entries() == sets[1].entries(),
        sets[1].entries() == if sets[0].ever_inserted(v) {
            sets[0].entries()
        } else {
            sets[0].entries().push(vs[0])
        },
{
    assert(sets[0].try_insert_spec(vs[0], sets[1], rs[0]));
    assert(vs[0].eq_spec(&v));
    sets[0].lemma_state_respects_eq(vs[0], v);
    lemma_later_inserts_fail(sets, vs, rs, v, sets.len() - 1);
    let k = sets.len() - 1;
    if k >= 1 {
        let p = sets[k - 1];
        assert(p.try_insert_spec(vs[k - 1], sets[k], rs[k - 1]));
        assert(vs[k - 1].eq_spec(&v));
        p.lemma_state_respects_eq(vs[k - 1], v);
        sets[k].lemma_state_respects_eq(vs[k - 1], v);
    }
}

/// After `try_insert` of a value, exactly one entry holds a value equal
/// to it, and entries still hold pairwise different values.
pub proof fn law_inserted_value_has_one_entry<T: Eq>(
    a: ExclusionSet<T>,
    b: ExclusionSet<T>,
    v: T,
    r: bool,
)
    requires
        eq_is_equivalence::<T>(),
        a.wf(),
        b.wf(),
        a.try_insert_spec(v, b, r),
    ensures
        exists|i: int|
            0 <= i < b.entries().len() && #[trigger] b.entries()[i].eq_spec(&v) && forall|j: int|
                0 <= j < b.entries().len() && #[trigger] b.entries()[j].eq_spec(&v) ==> j == i,
        forall|i: int, j: int|
            #![trigger b.entries()[i], b.entries()[j]]
            0 <= i < b.entries().len() && 0 <= j < b.entries().len() && i != j
                ==> !b.entries()[i].eq_spec(&b.entries()[j]),
{
    assert(v.eq_spec(&v));
    assert(b.ever_inserted(v));
    b.lemma_known_iff_entry(v);
    b.lemma_entries_distinct();
    let e = b.entries();
    assert forall|i: int, j: int|
        #![trigger e[i], e[j]]
        0 <= i < e.len() && 0 <= j < e.len() && i != j implies !e[i].eq_spec(&e[j]) by {
        if j < i && e[i].eq_spec(&e[j]) {
            assert(e[j].eq_spec(&e[i]));
        }
    }
    let i = choose|i: int| 0 <= i < e.len() && #[trigger] e[i].eq_spec(&v);
    assert forall|j: int| 0 <= j < e.len() && #[trigger] e[j].eq_spec(&v) implies j == i by {
        if j != i {
            assert(v.eq_spec(&e[j]));
            assert(e[i].eq_spec(&e[j]));
        }
    }
}

/// Two runs of the same calls from sets with the same model return the same
/// replies and end in sets with the same model.
pub proof fn law_same_model_same_run<T: Eq>(
    a: Seq<ExclusionSet<T>>,
    b: Seq<ExclusionSet<T>>,
    ops: Seq<Op<T>>,
    ra: Seq<Reply>,
    rb: Seq<Reply>,
)
    requires
        eq_is_equivalence::<T>(),
        is_run(a, ops, ra),
        is_run(b, ops, rb),
        a[0].same_model(b[0]),
    ensures
        ra == rb,
        a.last().same_model(b.last()),
    decreases ops.len(),
{
    let n = ops.len();
    if n > 0 {
        let ops0 = ops.drop_last();
        let a0 = a.drop_last();
        let b0 = b.drop_last();
        let ra0 = ra.drop_last();
        let rb0 = rb.drop_last();
        assert forall|i: int| 0 <= i < ops0.len() implies step(
            a0[i],
            ops0[i],
            a0[i + 1],
            #[trigger] ra0[i],
        ) by {
            assert(step(a[i], ops[i], a[i + 1], ra[i]));
        }
        assert forall|i: int| 0 <= i < ops0.len() implies step(
            b0[i],
            ops0[i],
            b0[i + 1],
            #[trigger] rb0[i],
        ) by {
            assert(step(b[i], ops[i], b[i + 1], rb[i]));
        }
        assert(a0[0] == a[0]);
        assert(b0[0] == b[0]);
        law_same_model_same_run(a0, b0, ops0, ra0, rb0);
        let k = n - 1;
        assert(a0.last() == a[k]);
        assert(b0.last() == b[k]);
        assert(a[k].wf() && a[k + 1].wf() && b[k].wf() && b[k + 1].wf());
        assert(step(a[k], ops[k], a[k + 1], ra[k]));
        assert(step(b[k], ops[k], b[k + 1], rb[k]));
        match ops[k] {
            Op::TryInsert(v) => {
                let x = ra[k]->Inserted_0;
                let y = rb[k]->Inserted_0;
                law_same_model_try_insert(a[k], b[k], a[k + 1], b[k + 1], v, x, y);
            },
            Op::WaitToInsert(v, t) => {
                let x = ra[k]->Waited_0;
                let y = rb[k]->Waited_0;
                law_same_model_wait_to_insert(a[k], b[k], a[k + 1], b[k + 1], v, t, x, y);
            },
            Op::Remove(v) => {
                law_same_model_remove(a[k], b[k], a[k + 1], b[k + 1], v);
            },
        }
        assert(ra =~= ra0.push(ra[k]));
        assert(rb =~= rb0.push(rb[k]));
    }
}

/// A set made by `new` and one made by `default` return the same replies to
/// every run of calls, and end with the same model.
pub proof fn law_new_and_default_agree<T: Eq>(
    a: Seq<ExclusionSet<T>>,
    b: Seq<ExclusionSet<T>>,
    ops: Seq<Op<T>>,
    ra: Seq<Reply>,
    rb: Seq<Reply>,
)
    requires
        eq_is_equivalence::<T>(),
        is_run(a, ops, ra),
        is_run(b, ops, rb),
        a[0].entries() == Seq::<T>::empty(),
        b[0].entries() == Seq::<T>::empty(),
        forall|v: T| #[trigger] a[0].state_of(v) is None,
        forall|v: T| #[trigger] b[0].state_of(v) is None,
    ensures
        ra == rb,
        a.last().same_model(b.last()),
{
    law_fresh_sets_agree(a[0], b[0]);
    law_same_model_same_run(a, b, ops, ra, rb);
}

/// `wait_to_insert` of a value that is absent, whether or not it was
/// inserted and removed before, takes it: it reports `Inserted`, and the
/// value is then held with nobody waiting, so a `try_insert` of an equal
/// value fails and the next removal of it vacates it.
pub proof fn law_wait_on_absent_takes_value<T: Eq>(
    a: ExclusionSet<T>,
    b: ExclusionSet<T>,
    v: T,
    w: T,
    t: u64,
    r: WaitOutcome,
)
    requires
        eq_is_equivalence::<T>(),
        a.wf(),
        b.wf(),
        a.state_of(v) is None,
        a.wait_to_insert_spec(v, t, b, r),
        w.eq_spec(&v),
    ensures
        r == WaitOutcome::Inserted,
        forall|c: ExclusionSet<T>, r2: bool| #[trigger] b.try_insert_spec(w, c, r2) ==> !r2,
        removal_outcome(b.state_of(w)) == RemoveOutcome::Vacated,
        forall|t2: u64| !#[trigger] b.queued_for(w, t2),
{
    b.lemma_state_respects_eq(w, v);
}

/// `wait_to_insert` of a value that is held queues the caller, whatever its
/// ticket: it reports `Queued`, the ticket is waiting for the value, the
/// queue grows by one, and the next removal of the value serves this ticket.
pub proof fn law_wait_on_held_queues<T: Eq>(
    a: ExclusionSet<T>,
    b: ExclusionSet<T>,
    v: T,
    t: u64,
    r: WaitOutcome,
)
    requires
        eq_is_equivalence::<T>(),
        a.wf(),
        b.wf(),
        a.state_of(v) is Some,
        a.wait_to_insert_spec(v, t, b, r),
    ensures
        r == WaitOutcome::Queued,
        b.queued_for(v, t),
        b.state_of(v) is Some,
        b.state_of(v)->0.len() == a.state_of(v)->0.len() + 1,
        removal_outcome(b.state_of(v)) == RemoveOutcome::HandedTo(t),
{
    let q = a.state_of(v)->0;
    assert(q.push(t)[q.len() as int] == t);
}

/// A ticket is waiting for a value exactly when it stands at some position of
/// the value's queue.
pub proof fn law_waiting_is_membership<T: Eq>(s: ExclusionSet<T>, v: T, t: u64)
    ensures
        s.queued_for(v, t) <==> (s.state_of(v) is Some && exists|i: int|
            0 <= i < s.state_of(v)->0.len() && #[trigger] s.state_of(v)->0[i] == t),
{
}

/// A ticket that a removal serves, and that was queued nowhere else, is then
/// waiting for no value, whatever the other values' queues hold.
pub proof fn law_served_ticket_stops_waiting<T: Eq>(
    a: ExclusionSet<T>,
    b: ExclusionSet<T>,
    v: T,
    t: u64,
)
    requires
        eq_is_equivalence::<T>(),
        a.wf(),
        b.wf(),
        a.remove_spec(v, b),
        removal_outcome(a.state_of(v)) == RemoveOutcome::HandedTo(t),
        forall|w: T, i: int|
            a.state_of(w) is Some && 0 <= i < a.state_of(w)->0.len() && #[trigger] a.state_of(
                w,
            )->0[i] == t ==> w.eq_spec(&v) && i == a.state_of(w)->0.len() - 1,
    ensures
        forall|w: T| !#[trigger] b.queued_for(w, t),
{
    let q = a.state_of(v)->0;
    assert forall|w: T| !#[trigger] b.queued_for(w, t) by {
        if w.eq_spec(&v) {
            a.lemma_state_respects_eq(w, v);
            b.lemma_state_respects_eq(w, v);
            if b.queued_for(w, t) {
                let i = choose|i: int| 0 <= i < q.drop_last().len() && q.drop_last()[i] == t;
                assert(q[i] == t);
                assert(a.state_of(w)->0[i] == t);
            }
        } else if b.queued_for(w, t) {
            let p = a.state_of(w)->0;
            let i = choose|i: int| 0 <= i < p.len() && p[i] == t;
            assert(a.state_of(w)->0[i] == t);
        }
    }
}

} // verus!
