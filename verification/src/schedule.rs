//! Running units of work one after the other, as a scheduler with a single
//! worker does, and what makes that possible: units made from a well-formed
//! registry stand for lists that share no member, so that no unit disturbs
//! the list of another.

use vstd::prelude::*;
use crate::abi::{ObjectReference, ReferenceType};
use crate::heap::Heap;
use crate::processing::{
    enqueued, lemma_enqueued_alike, lemma_enqueued_members, lemma_settles_stable, same_headers,
    within, Visit,
};
use crate::reference_glue::{
    disjoint, lemma_discovered_chain_frame, DiscoveredLists, PendingList, ProcessDiscoveredList,
    ResurrectFinalizables,
};

verus! {

/// The unit can run as things stand: its list is as it was when the unit
/// was made, none of its members is pending, and the registry holds its
/// members where it should and nowhere else.
pub open spec fn unit_ok(
    unit: ProcessDiscoveredList,
    lists: &DiscoveredLists,
    heap: &Heap,
    pending: Seq<ObjectReference>,
) -> bool {
    &&& unit.ready(heap)
    &&& lists.slot(unit.spec_kind(), unit.spec_list_index() as int)
    &&& disjoint(pending, unit.members())
    &&& unit.spec_kind() == ReferenceType::Final ==> lists.list(
        ReferenceType::Final,
        unit.spec_list_index() as int,
    )@ == unit.members()
    &&& unit.spec_kind() != ReferenceType::Final ==> lists.apart_from(unit.members())
}

/// The units from `from` on can run one after the other: each can run as
/// things stand, and no two of them share a member.
pub open spec fn runnable(
    units: Seq<ProcessDiscoveredList>,
    from: int,
    lists: &DiscoveredLists,
    heap: &Heap,
    pending: Seq<ObjectReference>,
) -> bool {
    &&& forall|k: int|
        from <= k < units.len() ==> unit_ok(#[trigger] units[k], lists, heap, pending)
    &&& forall|k: int, l: int|
        from <= k < units.len() && from <= l < units.len() && k != l ==> disjoint(
            #[trigger] units[k].members(),
            #[trigger] units[l].members(),
        )
}

/// None of the units is for a list of final references.
pub open spec fn no_final_unit(units: Seq<ProcessDiscoveredList>) -> bool {
    forall|k: int| 0 <= k < units.len() ==> (#[trigger] units[k]).spec_kind()
        != ReferenceType::Final
}

/// A unit that could run can still run when another unit, with other
/// members, has run.
pub proof fn lemma_unit_outlives(
    ran: ProcessDiscoveredList,
    waiting: ProcessDiscoveredList,
    lists0: &DiscoveredLists,
    lists1: &DiscoveredLists,
    heap0: &Heap,
    heap1: &Heap,
    pending0: Seq<ObjectReference>,
    pending1: Seq<ObjectReference>,
    kept: Seq<ObjectReference>,
)
    requires
        unit_ok(ran, lists0, heap0, pending0),
        unit_ok(waiting, lists0, heap0, pending0),
        disjoint(waiting.members(), ran.members()),
        heap0.evolves(heap1, ran.members()),
        within(kept, ran.members()),
        ran.spec_kind() != ReferenceType::Final ==> pending1 == kept + pending0
            && lists0.same_lists(lists1),
        ran.spec_kind() == ReferenceType::Final ==> pending1 == pending0 && lists0.same_but(
            lists1,
            ReferenceType::Final,
            ran.spec_list_index() as int,
        ) && lists1.list(ReferenceType::Final, ran.spec_list_index() as int)@ == kept,
    ensures
        unit_ok(waiting, lists1, heap1, pending1),
{
    let mine = waiting.members();
    let theirs = ran.members();
    lemma_discovered_chain_frame(heap0, heap1, theirs, Some(waiting.spec_head()), mine);
    assert forall|a: int, b: int| 0 <= a < kept.len() && 0 <= b < mine.len() implies kept[a]
        != mine[b] by {
        assert(theirs.contains(kept[a]));
        let m = choose|m: int| 0 <= m < theirs.len() && theirs[m] == kept[a];
        assert(mine[b] != theirs[m]);
    }
    assert(disjoint(pending1, mine)) by {
        assert forall|a: int, b: int|
            0 <= a < pending1.len() && 0 <= b < mine.len() implies pending1[a] != mine[b] by {
            if ran.spec_kind() != ReferenceType::Final {
                if a < kept.len() {
                    assert(pending1[a] == kept[a]);
                } else {
                    assert(pending1[a] == pending0[a - kept.len()]);
                }
            }
        }
    }
    let index = waiting.spec_list_index() as int;
    if waiting.spec_kind() == ReferenceType::Final {
        if ran.spec_kind() == ReferenceType::Final {
            if ran.spec_list_index() == waiting.spec_list_index() {
                // Two units for one list would share its head.
                assert(mine == theirs);
                assert(mine[0] != theirs[0]);
            }
            assert(lists1.list(ReferenceType::Final, index) == lists0.list(
                ReferenceType::Final,
                index,
            ));
        } else {
            assert(lists1.list(ReferenceType::Final, index) == lists0.list(
                ReferenceType::Final,
                index,
            ));
        }
    } else {
        assert forall|rt: ReferenceType, i: int| lists1.slot(rt, i) implies disjoint(
            (#[trigger] lists1.list(rt, i))@,
            mine,
        ) by {
            assert(disjoint(lists0.list(rt, i)@, mine));
            if ran.spec_kind() == ReferenceType::Final && rt == ReferenceType::Final && i
                == ran.spec_list_index() {
                assert(lists1.list(rt, i)@ == kept);
            } else {
                assert(lists1.list(rt, i) == lists0.list(rt, i));
            }
        }
    }
}

/// None of the units keeps alive what the trace has not reached.
pub open spec fn none_retraces(units: Seq<ProcessDiscoveredList>, emergency: bool) -> bool {
    forall|k: int| 0 <= k < units.len() ==> !(#[trigger] units[k]).visit(emergency).retraces()
}

/// Whether the member `m` of `unit` is kept: in the pending list for a soft,
/// weak or phantom reference, in the worker's list for a final one.
pub open spec fn kept_by(
    unit: ProcessDiscoveredList,
    lists: &DiscoveredLists,
    pending: Seq<ObjectReference>,
    m: ObjectReference,
) -> bool {
    if unit.spec_kind() == ReferenceType::Final {
        lists.list(ReferenceType::Final, unit.spec_list_index() as int)@.contains(m)
    } else {
        pending.contains(m)
    }
}

/// What has become of the member `m` of a unit that has run, told by the
/// heap `before` any unit ran.
///
/// A member that is not kept has left its list. A member without a referent
/// is not kept and still has none. A member that is kept had a referent
/// that the trace had not reached and that the unit does not retain, and its
/// `referent` field is cleared, or left alone in a final reference. A
/// member with a referent that is not kept holds the address at which the
/// referent, now settled, lives. With `exact`, when no unit keeps alive what
/// the trace has not reached, the members kept are the ones with such a
/// referent, and no others.
pub open spec fn member_done(
    unit: ProcessDiscoveredList,
    emergency: bool,
    before: &Heap,
    after: &Heap,
    lists: &DiscoveredLists,
    pending: Seq<ObjectReference>,
    m: ObjectReference,
    exact: bool,
) -> bool {
    let how = unit.visit(emergency);
    let kept = kept_by(unit, lists, pending, m);
    &&& !kept ==> after.discovered(m) is None
    &&& match before.referent(m) {
        None => !kept && after.referent(m) is None,
        Some(r) => if kept {
            !how.keeps(before, r) && after.referent(m) == how.leaves(r)
        } else {
            after.referent(m) == Some(after.resolve(r)) && after.settled(after.resolve(r))
        },
    }
    &&& exact ==> (kept <==> how.enqueues(before, m))
}

/// `x` is a member of one of the first `upto` units, and of one that is not
/// for final references.
pub open spec fn added_by(
    units: Seq<ProcessDiscoveredList>,
    upto: int,
    x: ObjectReference,
) -> bool {
    exists|k: int|
        0 <= k < upto && (#[trigger] units[k]).spec_kind() != ReferenceType::Final
            && units[k].members().contains(x)
}

/// What the first `upto` units put in front of the pending list when they
/// decide by the heap `heap`: the members kept by the last of them first,
/// units for final references left out.
pub open spec fn queued(
    units: Seq<ProcessDiscoveredList>,
    emergency: bool,
    heap: &Heap,
    upto: int,
) -> Seq<ObjectReference>
    decreases upto,
{
    if upto <= 0 {
        Seq::empty()
    } else {
        let earlier = queued(units, emergency, heap, upto - 1);
        let unit = units[upto - 1];
        if unit.spec_kind() == ReferenceType::Final {
            earlier
        } else {
            enqueued(unit.visit(emergency), heap, unit.members()) + earlier
        }
    }
}

/// What the trace had reached in `before` is marked and moved alike in `after`.
pub open spec fn reached_stay(before: &Heap, after: &Heap) -> bool {
    &&& before@.len() <= after@.len()
    &&& forall|x: ObjectReference| #![trigger after.object(x)]
        before.contains(x) && before.reachable(x) ==> after.forwarded(x) == before.forwarded(x)
            && after.object(x).marked == before.object(x).marked
}

/// What was reached stays reached from one change of the heap to the next.
proof fn lemma_reached_stay_step(
    start: &Heap,
    a: &Heap,
    b: &Heap,
    touched: Seq<ObjectReference>,
)
    requires
        reached_stay(start, a),
        a.evolves(b, touched),
    ensures
        reached_stay(start, b),
{
    assert forall|x: ObjectReference| #![trigger b.object(x)]
        start.contains(x) && start.reachable(x) implies b.forwarded(x) == start.forwarded(x)
        && b.object(x).marked == start.object(x).marked by {
        let _ = a.object(x);
    }
}

/// A member of a unit that has run is kept or not as it was, whatever unit
/// runs after it.
proof fn lemma_kept_stays(
    unit: ProcessDiscoveredList,
    ran: ProcessDiscoveredList,
    lists0: &DiscoveredLists,
    lists1: &DiscoveredLists,
    pending0: Seq<ObjectReference>,
    pending1: Seq<ObjectReference>,
    kept: Seq<ObjectReference>,
    m: ObjectReference,
)
    requires
        lists0.slot(unit.spec_kind(), unit.spec_list_index() as int),
        !ran.members().contains(m),
        within(kept, ran.members()),
        unit.spec_kind() == ReferenceType::Final && ran.spec_kind() == ReferenceType::Final
            ==> unit.spec_list_index() != ran.spec_list_index(),
        ran.spec_kind() != ReferenceType::Final ==> pending1 == kept + pending0
            && lists0.same_lists(lists1),
        ran.spec_kind() == ReferenceType::Final ==> pending1 == pending0 && lists0.same_but(
            lists1,
            ReferenceType::Final,
            ran.spec_list_index() as int,
        ),
    ensures
        kept_by(unit, lists1, pending1, m) == kept_by(unit, lists0, pending0, m),
{
    if unit.spec_kind() == ReferenceType::Final {
        assert(lists1.list(ReferenceType::Final, unit.spec_list_index() as int) == lists0.list(
            ReferenceType::Final,
            unit.spec_list_index() as int,
        ));
    } else if ran.spec_kind() != ReferenceType::Final {
        if pending1.contains(m) {
            let k = choose|k: int| 0 <= k < pending1.len() && pending1[k] == m;
            if k < kept.len() {
                assert(ran.members().contains(kept[k]));
            } else {
                assert(pending0[k - kept.len()] == m);
            }
        }
        if pending0.contains(m) {
            let k = choose|k: int| 0 <= k < pending0.len() && pending0[k] == m;
            assert(pending1[kept.len() + k] == m);
        }
    }
}

/// What has become of a member of a unit that has run stays so while other
/// units run.
proof fn lemma_member_stays_done(
    unit: ProcessDiscoveredList,
    emergency: bool,
    start: &Heap,
    a: &Heap,
    b: &Heap,
    touched: Seq<ObjectReference>,
    lists0: &DiscoveredLists,
    lists1: &DiscoveredLists,
    pending0: Seq<ObjectReference>,
    pending1: Seq<ObjectReference>,
    m: ObjectReference,
    exact: bool,
)
    requires
        start.wf(),
        start.contains(m),
        reached_stay(start, a),
        a.evolves(b, touched),
        !touched.contains(m),
        member_done(unit, emergency, start, a, lists0, pending0, m, exact),
        kept_by(unit, lists1, pending1, m) == kept_by(unit, lists0, pending0, m),
    ensures
        member_done(unit, emergency, start, b, lists1, pending1, m, exact),
{
    let _ = b.object(m);
    assert(start.object_ok(m));
    if start.referent(m) is Some {
        let r = start.referent(m).unwrap();
        if !kept_by(unit, lists0, pending0, m) {
            let to = a.resolve(r);
            let _ = b.object(r);
            let _ = b.object(to);
        }
    }
}

/// What has become of a member of the unit that has just run.
proof fn lemma_member_done_now(
    unit: ProcessDiscoveredList,
    emergency: bool,
    start: &Heap,
    a: &Heap,
    b: &Heap,
    lists1: &DiscoveredLists,
    pending1: Seq<ObjectReference>,
    m: ObjectReference,
    exact: bool,
)
    requires
        start.wf(),
        start.contains(m),
        reached_stay(start, a),
        exact ==> same_headers(start, a),
        a.object(m) == start.object(m),
        unit.visit(emergency).settles(a, b, m),
        !unit.visit(emergency).enqueues(a, m) ==> b.discovered(m) is None,
        kept_by(unit, lists1, pending1, m) == unit.visit(emergency).enqueues(a, m),
    ensures
        member_done(unit, emergency, start, b, lists1, pending1, m, exact),
{
    assert(start.object_ok(m));
    if start.referent(m) is Some {
        let r = start.referent(m).unwrap();
        let _ = a.object(r);
    }
}

/// What a run of units has done when all have run, told by the heap
/// `start` as it was before the first unit ran.
///
/// Every member of every unit is as [`member_done`] says. Every reference
/// that was added to the pending list is a member of one of the units. What
/// the trace had reached is marked and moved as it was. When no unit keeps
/// alive what the trace has not reached, nothing at all is marked or moved,
/// the pending list has grown by what [`queued`] gives, and each list of
/// final references that had a unit holds what [`enqueued`] gives.
#[verifier::opaque]
pub open spec fn units_done(
    units: Seq<ProcessDiscoveredList>,
    emergency: bool,
    start: &Heap,
    heap: &Heap,
    lists: &DiscoveredLists,
    start_pending: Seq<ObjectReference>,
    pending: Seq<ObjectReference>,
) -> bool {
    let exact = none_retraces(units, emergency);
    &&& forall|k: int, j: int|
        0 <= k < units.len() && 0 <= j < units[k].members().len() ==> member_done(
            units[k],
            emergency,
            start,
            heap,
            lists,
            pending,
            #[trigger] units[k].members()[j],
            exact,
        )
    &&& forall|i: int|
        0 <= i < pending.len() - start_pending.len() ==> added_by(
            units,
            units.len() as int,
            #[trigger] pending[i],
        )
    &&& reached_stay(start, heap)
    &&& exact ==> same_headers(start, heap)
    &&& exact ==> pending == queued(units, emergency, start, units.len() as int) + start_pending
    &&& exact ==> forall|k: int|
        0 <= k < units.len() && (#[trigger] units[k]).spec_kind() == ReferenceType::Final
            ==> lists.list(ReferenceType::Final, units[k].spec_list_index() as int)@ == enqueued(
            units[k].visit(emergency),
            start,
            units[k].members(),
        )
}

/// How far a run of units has come: it began with the heap `start`, the
/// registry `start_lists` and the pending list `start_pending`, and the first
/// `done` units have run.
#[verifier::opaque]
spec fn units_progress(
    units: Seq<ProcessDiscoveredList>,
    emergency: bool,
    done: int,
    start: &Heap,
    heap: &Heap,
    start_lists: &DiscoveredLists,
    lists: &DiscoveredLists,
    start_pending: Seq<ObjectReference>,
    pending: Seq<ObjectReference>,
) -> bool {
    let exact = none_retraces(units, emergency);
    &&& start.wf()
    &&& forall|k: int, j: int|
        0 <= k < units.len() && 0 <= j < units[k].members().len() ==> start.settled(
            #[trigger] units[k].members()[j],
        )
    &&& forall|k: int|
        0 <= k < units.len() ==> start_lists.slot(
            (#[trigger] units[k]).spec_kind(),
            units[k].spec_list_index() as int,
        )
    &&& forall|k: int, l: int|
        0 <= k < units.len() && 0 <= l < units.len() && k != l && (#[trigger] units[k]).spec_kind()
            == ReferenceType::Final && (#[trigger] units[l]).spec_kind() == ReferenceType::Final
            ==> units[k].spec_list_index() != units[l].spec_list_index()
    &&& forall|k: int, l: int|
        0 <= k < units.len() && 0 <= l < units.len() && k != l ==> disjoint(
            #[trigger] units[k].members(),
            #[trigger] units[l].members(),
        )
    &&& reached_stay(start, heap)
    &&& exact ==> same_headers(start, heap)
    &&& exact ==> pending == queued(units, emergency, start, done) + start_pending
    &&& exact ==> forall|k: int|
        0 <= k < done && (#[trigger] units[k]).spec_kind() == ReferenceType::Final ==> lists.list(
            ReferenceType::Final,
            units[k].spec_list_index() as int,
        )@ == enqueued(units[k].visit(emergency), start, units[k].members())
    &&& forall|k: int, j: int|
        done <= k < units.len() && 0 <= j < units[k].members().len() ==> heap.object(
            #[trigger] units[k].members()[j],
        ) == start.object(units[k].members()[j])
    &&& forall|k: int, j: int|
        0 <= k < done && 0 <= j < units[k].members().len() ==> member_done(
            units[k],
            emergency,
            start,
            heap,
            lists,
            pending,
            #[trigger] units[k].members()[j],
            exact,
        )
    &&& forall|j: int|
        0 <= j < pending.len() - start_pending.len() ==> added_by(
            units,
            done,
            #[trigger] pending[j],
        )
}

/// A run that has not begun has dealt with no unit.
proof fn lemma_units_start(
    units: Seq<ProcessDiscoveredList>,
    emergency: bool,
    lists: &DiscoveredLists,
    heap: &Heap,
    pending: Seq<ObjectReference>,
)
    requires
        heap.wf(),
        runnable(units, 0, lists, heap, pending),
    ensures
        units_progress(units, emergency, 0, heap, heap, lists, lists, pending, pending),
{
    reveal(units_progress);
    assert(pending =~= queued(units, emergency, heap, 0) + pending);
    assert forall|k: int, j: int|
        0 <= k < units.len() && 0 <= j < units[k].members().len() implies heap.settled(
        #[trigger] units[k].members()[j],
    ) by {
        assert(unit_ok(units[k], lists, heap, pending));
    }
    assert forall|k: int| 0 <= k < units.len() implies lists.slot(
        (#[trigger] units[k]).spec_kind(),
        units[k].spec_list_index() as int,
    ) by {
        assert(unit_ok(units[k], lists, heap, pending));
    }
    assert forall|k: int, l: int|
        0 <= k < units.len() && 0 <= l < units.len() && k != l && (#[trigger] units[k]).spec_kind()
            == ReferenceType::Final && (#[trigger] units[l]).spec_kind()
            == ReferenceType::Final implies units[k].spec_list_index()
        != units[l].spec_list_index() by {
        assert(unit_ok(units[k], lists, heap, pending));
        assert(unit_ok(units[l], lists, heap, pending));
        assert(disjoint(units[k].members(), units[l].members()));
        if units[k].spec_list_index() == units[l].spec_list_index() {
            assert(units[k].members()[0] != units[l].members()[0]);
        }
    }
}

/// What one more unit adds to what a run has done so far.
proof fn lemma_units_step(
    units: Seq<ProcessDiscoveredList>,
    emergency: bool,
    i: int,
    start: &Heap,
    heap0: &Heap,
    heap: &Heap,
    start_lists: &DiscoveredLists,
    lists0: &DiscoveredLists,
    lists: &DiscoveredLists,
    start_pending: Seq<ObjectReference>,
    pending0: Seq<ObjectReference>,
    pending: Seq<ObjectReference>,
)
    requires
        0 <= i < units.len(),
        units_progress(
            units,
            emergency,
            i,
            start,
            heap0,
            start_lists,
            lists0,
            start_pending,
            pending0,
        ),
        start_lists.workers() == lists0.workers(),
        start_pending.len() <= pending0.len(),
        disjoint(pending0, units[i].members()),
        heap0.evolves(heap, units[i].members()),
        !units[i].visit(emergency).retraces() ==> same_headers(heap0, heap),
        forall|j: int|
            0 <= j < units[i].members().len() ==> units[i].visit(emergency).settles(
                heap0,
                heap,
                #[trigger] units[i].members()[j],
            ),
        forall|j: int|
            0 <= j < units[i].members().len() && !units[i].visit(emergency).enqueues(
                heap0,
                #[trigger] units[i].members()[j],
            ) ==> heap.discovered(units[i].members()[j]) is None,
        units[i].spec_kind() != ReferenceType::Final ==> pending == enqueued(
            units[i].visit(emergency),
            heap0,
            units[i].members(),
        ) + pending0 && lists0.same_lists(lists),
        units[i].spec_kind() == ReferenceType::Final ==> pending == pending0 && lists0.same_but(
            lists,
            ReferenceType::Final,
            units[i].spec_list_index() as int,
        ) && lists.list(ReferenceType::Final, units[i].spec_list_index() as int)@ == enqueued(
            units[i].visit(emergency),
            heap0,
            units[i].members(),
        ),
    ensures
        units_progress(
            units,
            emergency,
            i + 1,
            start,
            heap,
            start_lists,
            lists,
            start_pending,
            pending,
        ),
{
    reveal(units_progress);
    let exact = none_retraces(units, emergency);
    let unit = units[i];
    let how = unit.visit(emergency);
    let members = unit.members();
    let kept = enqueued(how, heap0, members);
    lemma_enqueued_members(how, heap0, members);
    assert(within(kept, members)) by {
        assert forall|k: int| 0 <= k < kept.len() implies members.contains(#[trigger] kept[k]) by {
            assert(kept.contains(kept[k]));
        }
    }
    lemma_reached_stay_step(start, heap0, heap, members);
    if exact {
        assert(!how.retraces());
        assert forall|j: int| 0 <= j < members.len() implies how.enqueues(
            heap0,
            #[trigger] members[j],
        ) == how.enqueues(start, members[j]) by {
            let m = units[i].members()[j];
            assert(start.settled(m));
            assert(start.object_ok(m));
            if start.referent(m) is Some {
                let _ = heap0.object(start.referent(m).unwrap());
            }
        }
        lemma_enqueued_alike(how, heap0, start, members);
        assert(pending =~= queued(units, emergency, start, i + 1) + start_pending);
        assert forall|k: int|
            0 <= k < i + 1 && (#[trigger] units[k]).spec_kind()
                == ReferenceType::Final implies lists.list(
            ReferenceType::Final,
            units[k].spec_list_index() as int,
        )@ == enqueued(units[k].visit(emergency), start, units[k].members()) by {
            if k < i {
                assert(lists.list(ReferenceType::Final, units[k].spec_list_index() as int)
                    == lists0.list(ReferenceType::Final, units[k].spec_list_index() as int));
            }
        }
    }
    assert forall|k: int, j: int|
        i + 1 <= k < units.len() && 0 <= j < units[k].members().len() implies heap.object(
        #[trigger] units[k].members()[j],
    ) == start.object(units[k].members()[j]) by {
        let m = units[k].members()[j];
        assert(start.settled(m));
        assert(heap0.object(m) == start.object(m));
        assert(disjoint(units[k].members(), units[i].members()));
        assert(!members.contains(m));
    }
    assert forall|k: int, j: int|
        0 <= k < i + 1 && 0 <= j < units[k].members().len() implies member_done(
        units[k],
        emergency,
        start,
        heap,
        lists,
        pending,
        #[trigger] units[k].members()[j],
        exact,
    ) by {
        let m = units[k].members()[j];
        assert(start.settled(m));
        if k < i {
            assert(disjoint(units[k].members(), units[i].members()));
            assert(!members.contains(m));
            lemma_kept_stays(units[k], unit, lists0, lists, pending0, pending, kept, m);
            lemma_member_stays_done(
                units[k],
                emergency,
                start,
                heap0,
                heap,
                members,
                lists0,
                lists,
                pending0,
                pending,
                m,
                exact,
            );
        } else {
            assert(members.contains(m));
            assert(kept_by(unit, lists, pending, m) == how.enqueues(heap0, m)) by {
                if unit.spec_kind() != ReferenceType::Final {
                    if pending.contains(m) {
                        let at = choose|at: int| 0 <= at < pending.len() && pending[at] == m;
                        if at < kept.len() {
                            assert(kept.contains(kept[at]));
                        } else {
                            assert(pending0[at - kept.len()] != members[j]);
                        }
                    }
                    if kept.contains(m) {
                        let at = choose|at: int| 0 <= at < kept.len() && kept[at] == m;
                        assert(pending[at] == m);
                    }
                }
            }
            lemma_member_done_now(unit, emergency, start, heap0, heap, lists, pending, m, exact);
        }
    }
    assert forall|j: int| 0 <= j < pending.len() - start_pending.len() implies added_by(
        units,
        i + 1,
        #[trigger] pending[j],
    ) by {
        if unit.spec_kind() != ReferenceType::Final && j < kept.len() {
            assert(pending[j] == kept[j]);
            assert(units[i].members().contains(kept[j]));
        } else {
            let jj = if unit.spec_kind() != ReferenceType::Final {
                j - kept.len()
            } else {
                j
            };
            assert(pending[j] == pending0[jj]);
            assert(added_by(units, i, pending0[jj]));
            let k = choose|k: int|
                0 <= k < i && (#[trigger] units[k]).spec_kind() != ReferenceType::Final
                    && units[k].members().contains(pending0[jj]);
            assert(units[k].members().contains(pending[j]));
        }
    }
}

/// What a run has done when every unit has run.
proof fn lemma_units_end(
    units: Seq<ProcessDiscoveredList>,
    emergency: bool,
    start: &Heap,
    heap: &Heap,
    start_lists: &DiscoveredLists,
    lists: &DiscoveredLists,
    start_pending: Seq<ObjectReference>,
    pending: Seq<ObjectReference>,
)
    requires
        units_progress(
            units,
            emergency,
            units.len() as int,
            start,
            heap,
            start_lists,
            lists,
            start_pending,
            pending,
        ),
    ensures
        units_done(units, emergency, start, heap, lists, start_pending, pending),
{
    reveal(units_progress);
    reveal(units_done);
}

/// Runs the units one after the other.
///
/// Each unit does what [`ProcessDiscoveredList::do_work`] says, on the heap
/// as the units before it have left it. When all have run, every member of
/// every unit is as [`member_done`] says, told by the heap as it was before
/// the first unit ran. The registry and the pending list are well formed and
/// share no member. What was pending before is still pending, behind what
/// was added, and is as it was; every reference that was added is a member
/// of one of the units and has an empty `referent` field. See
/// [`units_done`] for all that holds of the members.
#[verifier::rlimit(30)]
pub fn run_units(
    units: &Vec<ProcessDiscoveredList>,
    lists: &mut DiscoveredLists,
    heap: &mut Heap,
    pending: &mut PendingList,
    emergency: bool,
)
    requires
        old(heap).wf(),
        old(lists).wf(old(heap)),
        old(pending).wf(old(heap)),
        old(lists).apart_from(old(pending)@),
        runnable(units@, 0, old(lists), old(heap), old(pending)@),
    ensures
        final(heap).wf(),
        final(lists).wf(final(heap)),
        final(pending).wf(final(heap)),
        final(lists).apart_from(final(pending)@),
        old(lists).workers() == final(lists).workers(),
        forall|rt: ReferenceType, i: int|
            old(lists).slot(rt, i) ==> within(
                (#[trigger] final(lists).list(rt, i))@,
                old(lists).list(rt, i)@,
            ) && (rt != ReferenceType::Final ==> final(lists).list(rt, i) == old(lists).list(
                rt,
                i,
            )),
        old(pending)@.len() <= final(pending)@.len(),
        final(pending)@.subrange(
            final(pending)@.len() - old(pending)@.len(),
            final(pending)@.len() as int,
        ) == old(pending)@,
        forall|i: int|
            0 <= i < old(pending)@.len() ==> final(heap).object(#[trigger] old(pending)@[i])
                == old(heap).object(old(pending)@[i]),
        forall|i: int|
            0 <= i < final(pending)@.len() - old(pending)@.len() ==> final(heap).referent(
                #[trigger] final(pending)@[i],
            ) is None,
        no_final_unit(units@) ==> old(lists).same_lists(final(lists)),
        units_done(
            units@,
            emergency,
            old(heap),
            final(heap),
            final(lists),
            old(pending)@,
            final(pending)@,
        ),
{
    let mut i: usize = 0;
    proof {
        assert(pending@.subrange(0, pending@.len() as int) =~= pending@);
        lemma_units_start(units@, emergency, lists, heap, pending@);
    }
    while i < units.len()
        invariant
            0 <= i <= units.len(),
            units_progress(
                units@,
                emergency,
                i as int,
                old(heap),
                heap,
                old(lists),
                lists,
                old(pending)@,
                pending@,
            ),
            heap.wf(),
            lists.wf(heap),
            pending.wf(heap),
            lists.apart_from(pending@),
            runnable(units@, i as int, lists, heap, pending@),
            old(lists).workers() == lists.workers(),
            forall|rt: ReferenceType, j: int|
                old(lists).slot(rt, j) ==> within(
                    (#[trigger] lists.list(rt, j))@,
                    old(lists).list(rt, j)@,
                ) && (rt != ReferenceType::Final ==> lists.list(rt, j) == old(lists).list(rt, j)),
            old(pending)@.len() <= pending@.len(),
            pending@.subrange(pending@.len() - old(pending)@.len(), pending@.len() as int) == old(
                pending,
            )@,
            forall|j: int|
                0 <= j < old(pending)@.len() ==> heap.object(#[trigger] old(pending)@[j]) == old(
                    heap,
                ).object(old(pending)@[j]),
            forall|j: int|
                0 <= j < pending@.len() - old(pending)@.len() ==> heap.referent(
                    #[trigger] pending@[j],
                ) is None,
            no_final_unit(units@) ==> old(lists).same_lists(lists),
        decreases units.len() - i,
    {
        let ghost lists0 = *lists;
        let ghost heap0 = *heap;
        let ghost pending0 = pending@;
        let unit = units[i];
        let ghost how = unit.visit(emergency);
        let ghost kept = enqueued(how, &heap0, unit.members());
        proof {
            assert(unit_ok(units@[i as int], &lists0, &heap0, pending0));
        }
        unit.do_work(lists, heap, pending, emergency);
        proof {
            lemma_units_step(
                units@,
                emergency,
                i as int,
                old(heap),
                &heap0,
                heap,
                old(lists),
                &lists0,
                lists,
                old(pending)@,
                pending0,
                pending@,
            );
        }
        proof {
            let members = unit.members();
            if no_final_unit(units@) {
                assert(units@[i as int].spec_kind() != ReferenceType::Final);
                assert forall|rt: ReferenceType, j: int| old(lists).slot(rt, j) implies #[trigger] lists.list(
                    rt,
                    j,
                ) == old(lists).list(rt, j) by {
                    let _ = lists0.list(rt, j);
                }
            }
            lemma_enqueued_members(how, &heap0, members);
            assert(within(kept, members)) by {
                assert forall|k: int| 0 <= k < kept.len() implies members.contains(
                    #[trigger] kept[k],
                ) by {
                    assert(kept.contains(kept[k]));
                }
            }
            assert forall|l: int| i + 1 <= l < units@.len() implies unit_ok(
                #[trigger] units@[l],
                lists,
                heap,
                pending@,
            ) by {
                assert(unit_ok(units@[l], &lists0, &heap0, pending0));
                assert(disjoint(units@[l].members(), units@[i as int].members()));
                lemma_unit_outlives(
                    unit,
                    units@[l],
                    &lists0,
                    lists,
                    &heap0,
                    heap,
                    pending0,
                    pending@,
                    kept,
                );
            }
            lemma_step_keeps_apart(unit, &lists0, lists, pending0, pending@, kept);
            lemma_step_keeps_pending(
                unit,
                how,
                &heap0,
                heap,
                old(pending)@,
                pending0,
                pending@,
                kept,
            );
            assert forall|rt: ReferenceType, j: int| old(lists).slot(rt, j) implies within(
                (#[trigger] lists.list(rt, j))@,
                old(lists).list(rt, j)@,
            ) && (rt != ReferenceType::Final ==> lists.list(rt, j) == old(lists).list(rt, j)) by {
                let was = lists0.list(rt, j)@;
                let is = lists.list(rt, j)@;
                assert(within(was, old(lists).list(rt, j)@));
                if unit.spec_kind() == ReferenceType::Final && rt == ReferenceType::Final && j
                    == unit.spec_list_index() {
                    assert forall|k: int| 0 <= k < is.len() implies old(lists).list(
                        rt,
                        j,
                    )@.contains(#[trigger] is[k]) by {
                        assert(was.contains(kept[k]));
                        let m = choose|m: int| 0 <= m < was.len() && was[m] == kept[k];
                        assert(old(lists).list(rt, j)@.contains(was[m]));
                    }
                } else {
                    assert(lists.list(rt, j) == lists0.list(rt, j));
                }
            }
            assert forall|j: int| 0 <= j < old(pending)@.len() implies heap.object(
                #[trigger] old(pending)@[j],
            ) == old(heap).object(old(pending)@[j]) by {
                let at = pending0.len() - old(pending)@.len() + j;
                assert(pending0.subrange(
                    pending0.len() - old(pending)@.len(),
                    pending0.len() as int,
                )[j] == pending0[at]);
                assert(heap.object(pending0[at]) == heap0.object(pending0[at]));
            }
        }
        i = i + 1;
    }
    proof {
        lemma_units_end(
            units@,
            emergency,
            old(heap),
            heap,
            old(lists),
            lists,
            old(pending)@,
            pending@,
        );
    }
}

/// When a unit has run, the registry and the pending list still share no member.
proof fn lemma_step_keeps_apart(
    ran: ProcessDiscoveredList,
    lists0: &DiscoveredLists,
    lists1: &DiscoveredLists,
    pending0: Seq<ObjectReference>,
    pending1: Seq<ObjectReference>,
    kept: Seq<ObjectReference>,
)
    requires
        lists0.apart_from(pending0),
        lists0.slot(ran.spec_kind(), ran.spec_list_index() as int),
        within(kept, ran.members()),
        ran.spec_kind() == ReferenceType::Final ==> lists0.list(
            ReferenceType::Final,
            ran.spec_list_index() as int,
        )@ == ran.members(),
        ran.spec_kind() != ReferenceType::Final ==> lists0.apart_from(ran.members()),
        ran.spec_kind() != ReferenceType::Final ==> pending1 == kept + pending0
            && lists0.same_lists(lists1),
        ran.spec_kind() == ReferenceType::Final ==> pending1 == pending0 && lists0.same_but(
            lists1,
            ReferenceType::Final,
            ran.spec_list_index() as int,
        ) && lists1.list(ReferenceType::Final, ran.spec_list_index() as int)@ == kept,
    ensures
        lists1.apart_from(pending1),
{
    let theirs = ran.members();
    assert forall|rt: ReferenceType, i: int| lists1.slot(rt, i) implies disjoint(
        (#[trigger] lists1.list(rt, i))@,
        pending1,
    ) by {
        let was = lists0.list(rt, i)@;
        let is = lists1.list(rt, i)@;
        assert(disjoint(was, pending0));
        if ran.spec_kind() == ReferenceType::Final {
            if rt == ReferenceType::Final && i == ran.spec_list_index() {
                assert forall|a: int, b: int|
                    0 <= a < is.len() && 0 <= b < pending1.len() implies is[a] != pending1[b] by {
                    assert(theirs.contains(kept[a]));
                    let m = choose|m: int| 0 <= m < theirs.len() && theirs[m] == kept[a];
                    assert(was[m] != pending0[b]);
                }
            } else {
                assert(lists1.list(rt, i) == lists0.list(rt, i));
            }
        } else {
            assert(lists1.list(rt, i) == lists0.list(rt, i));
            assert(disjoint(was, theirs));
            assert forall|a: int, b: int|
                0 <= a < is.len() && 0 <= b < pending1.len() implies is[a] != pending1[b] by {
                if b < kept.len() {
                    assert(theirs.contains(kept[b]));
                    let m = choose|m: int| 0 <= m < theirs.len() && theirs[m] == kept[b];
                    assert(was[a] != theirs[m]);
                } else {
                    assert(pending1[b] == pending0[b - kept.len()]);
                }
            }
        }
    }
}

/// When a unit has run, what was pending at the start is still the end of
/// the pending list, and what has been added since has been cleared.
proof fn lemma_step_keeps_pending(
    ran: ProcessDiscoveredList,
    how: Visit,
    heap0: &Heap,
    heap1: &Heap,
    first: Seq<ObjectReference>,
    pending0: Seq<ObjectReference>,
    pending1: Seq<ObjectReference>,
    kept: Seq<ObjectReference>,
)
    requires
        how is Classify,
        how->Classify_rt == ran.spec_kind(),
        kept == enqueued(how, heap0, ran.members()),
        first.len() <= pending0.len(),
        pending0.subrange(pending0.len() - first.len(), pending0.len() as int) == first,
        forall|j: int|
            0 <= j < pending0.len() - first.len() ==> heap0.referent(#[trigger] pending0[j])
                is None,
        forall|j: int|
            0 <= j < pending0.len() ==> heap1.object(#[trigger] pending0[j]) == heap0.object(
                pending0[j],
            ),
        forall|j: int|
            0 <= j < ran.members().len() ==> how.settles(heap0, heap1, #[trigger] ran.members()[j]),
        ran.spec_kind() != ReferenceType::Final ==> pending1 == kept + pending0,
        ran.spec_kind() == ReferenceType::Final ==> pending1 == pending0,
    ensures
        first.len() <= pending1.len(),
        pending1.subrange(pending1.len() - first.len(), pending1.len() as int) == first,
        forall|j: int|
            0 <= j < pending1.len() - first.len() ==> heap1.referent(#[trigger] pending1[j])
                is None,
{
    let members = ran.members();
    lemma_enqueued_members(how, heap0, members);
    assert(pending1.subrange(pending1.len() - first.len(), pending1.len() as int) =~= first) by {
        assert forall|j: int| 0 <= j < first.len() implies pending1[pending1.len() - first.len()
            + j] == first[j] by {
            assert(pending0.subrange(pending0.len() - first.len(), pending0.len() as int)[j]
                == pending0[pending0.len() - first.len() + j]);
        }
    }
    assert forall|j: int| 0 <= j < pending1.len() - first.len() implies heap1.referent(
        #[trigger] pending1[j],
    ) is None by {
        if ran.spec_kind() != ReferenceType::Final && j < kept.len() {
            assert(pending1[j] == kept[j]);
            assert(kept.contains(kept[j]));
            let m = choose|m: int| 0 <= m < members.len() && members[m] == kept[j];
            assert(how.settles(heap0, heap1, members[m]));
        } else {
            let jj = if ran.spec_kind() != ReferenceType::Final {
                j - kept.len()
            } else {
                j
            };
            assert(pending1[j] == pending0[jj]);
            assert(heap1.object(pending0[jj]) == heap0.object(pending0[jj]));
        }
    }
}

/// The unit stands for the list of its kind and worker in `lists`.
pub open spec fn made_from(unit: ProcessDiscoveredList, lists: &DiscoveredLists) -> bool {
    &&& lists.slot(unit.spec_kind(), unit.spec_list_index() as int)
    &&& Some(unit.spec_head()) == lists.list(
        unit.spec_kind(),
        unit.spec_list_index() as int,
    ).spec_head()
    &&& unit.members() == lists.list(unit.spec_kind(), unit.spec_list_index() as int)@
}

/// Each unit stands for a list in `lists`, and no two for the same list.
pub open spec fn all_made_from(units: Seq<ProcessDiscoveredList>, lists: &DiscoveredLists) -> bool {
    &&& forall|k: int| 0 <= k < units.len() ==> made_from(#[trigger] units[k], lists)
    &&& forall|k: int, l: int|
        0 <= k < units.len() && 0 <= l < units.len() && k != l ==> (#[trigger] units[k]).spec_kind()
            != (#[trigger] units[l]).spec_kind() || units[k].spec_list_index()
            != units[l].spec_list_index()
}

/// The units of a batch stand for lists of the registry, each for its own.
pub proof fn lemma_batch_made(lists: &DiscoveredLists, rt: ReferenceType)
    requires
        rt.is_listed(),
    ensures
        all_made_from(ProcessDiscoveredList::batch(lists, rt, lists.workers() as int), lists),
        forall|k: int|
            0 <= k < ProcessDiscoveredList::batch(lists, rt, lists.workers() as int).len() ==> (
            #[trigger] ProcessDiscoveredList::batch(
                lists,
                rt,
                lists.workers() as int,
            )[k]).spec_kind() == rt,
{
    let all = lists.workers() as int;
    let batch = ProcessDiscoveredList::batch(lists, rt, all);
    assert forall|k: int| 0 <= k < batch.len() implies made_from(#[trigger] batch[k], lists)
        && batch[k].spec_kind() == rt by {
        ProcessDiscoveredList::lemma_batch_units(lists, rt, all, k);
    }
    assert forall|k: int, l: int| 0 <= k < batch.len() && 0 <= l < batch.len() && k != l implies (
    #[trigger] batch[k]).spec_list_index() != (#[trigger] batch[l]).spec_list_index() by {
        if k < l {
            ProcessDiscoveredList::lemma_batch_ordered(lists, rt, all, k, l);
        } else {
            ProcessDiscoveredList::lemma_batch_ordered(lists, rt, all, l, k);
        }
    }
}

/// Units for lists of some kinds, followed by units for lists of other
/// kinds, are units for lists of the registry, each for its own.
pub proof fn lemma_concat_made(
    a: Seq<ProcessDiscoveredList>,
    b: Seq<ProcessDiscoveredList>,
    lists: &DiscoveredLists,
    kinds_a: Set<ReferenceType>,
    kinds_b: Set<ReferenceType>,
)
    requires
        all_made_from(a, lists),
        all_made_from(b, lists),
        forall|k: int| 0 <= k < a.len() ==> kinds_a.contains((#[trigger] a[k]).spec_kind()),
        forall|k: int| 0 <= k < b.len() ==> kinds_b.contains((#[trigger] b[k]).spec_kind()),
        kinds_a.disjoint(kinds_b),
    ensures
        all_made_from(a + b, lists),
        forall|k: int|
            0 <= k < (a + b).len() ==> kinds_a.union(kinds_b).contains(
                (#[trigger] (a + b)[k]).spec_kind(),
            ),
{
    let both = a + b;
    assert forall|k: int| 0 <= k < both.len() implies made_from(#[trigger] both[k], lists)
        && kinds_a.union(kinds_b).contains(both[k].spec_kind()) by {
        if k < a.len() {
            assert(both[k] == a[k]);
        } else {
            assert(both[k] == b[k - a.len()]);
        }
    }
    assert forall|k: int, l: int|
        0 <= k < both.len() && 0 <= l < both.len() && k != l implies (
    #[trigger] both[k]).spec_kind() != (#[trigger] both[l]).spec_kind()
        || both[k].spec_list_index() != both[l].spec_list_index() by {
        if k < a.len() {
            assert(both[k] == a[k]);
        } else {
            assert(both[k] == b[k - a.len()]);
        }
        if l < a.len() {
            assert(both[l] == a[l]);
        } else {
            assert(both[l] == b[l - a.len()]);
        }
    }
}

/// Units that stand for lists of a well-formed registry can run one after
/// the other, once the lists of every kind but the final one are emptied.
pub proof fn lemma_made_units_runnable(
    units: Seq<ProcessDiscoveredList>,
    made: &DiscoveredLists,
    lists: &DiscoveredLists,
    heap: &Heap,
    pending: Seq<ObjectReference>,
    kinds: Set<ReferenceType>,
)
    requires
        made.wf(heap),
        made.apart_from(pending),
        all_made_from(units, made),
        made.cleared(lists, kinds),
        !kinds.contains(ReferenceType::Final),
        forall|k: int|
            0 <= k < units.len() && (#[trigger] units[k]).spec_kind() != ReferenceType::Final
                ==> kinds.contains(units[k].spec_kind()),
    ensures
        runnable(units, 0, lists, heap, pending),
{
    assert forall|k: int| 0 <= k < units.len() implies unit_ok(
        #[trigger] units[k],
        lists,
        heap,
        pending,
    ) by {
        let unit = units[k];
        let rt = unit.spec_kind();
        let index = unit.spec_list_index() as int;
        let mine = unit.members();
        assert(made_from(unit, made));
        assert(made.list(rt, index).wf(heap));
        assert(disjoint(made.list(rt, index)@, pending));
        assert(disjoint(pending, mine)) by {
            assert forall|a: int, b: int|
                0 <= a < pending.len() && 0 <= b < mine.len() implies pending[a] != mine[b] by {
                assert(made.list(rt, index)@[b] != pending[a]);
            }
        }
        if rt == ReferenceType::Final {
            assert(lists.list(rt, index) == made.list(rt, index));
        } else {
            assert forall|rt2: ReferenceType, i: int| lists.slot(rt2, i) implies disjoint(
                (#[trigger] lists.list(rt2, i))@,
                mine,
            ) by {
                if !kinds.contains(rt2) {
                    assert(lists.list(rt2, i) == made.list(rt2, i));
                    assert(disjoint(made.list(rt2, i)@, made.list(rt, index)@));
                }
            }
        }
    }
    assert forall|k: int, l: int|
        0 <= k < units.len() && 0 <= l < units.len() && k != l implies disjoint(
        #[trigger] units[k].members(),
        #[trigger] units[l].members(),
    ) by {
        assert(made_from(units[k], made));
        assert(made_from(units[l], made));
        assert(disjoint(
            made.list(units[k].spec_kind(), units[k].spec_list_index() as int)@,
            made.list(units[l].spec_kind(), units[l].spec_list_index() as int)@,
        ));
    }
}

/// The resurrecting unit can run as things stand.
pub open spec fn resurrection_ok(
    unit: ResurrectFinalizables,
    lists: &DiscoveredLists,
    heap: &Heap,
    pending: Seq<ObjectReference>,
) -> bool {
    &&& unit.ready(heap)
    &&& lists.slot(ReferenceType::Final, unit.spec_list_index() as int)
    &&& disjoint(pending, unit.members())
    &&& lists.apart_from(unit.members())
}

/// The resurrecting units from `from` on can run one after the other.
pub open spec fn resurrections_runnable(
    units: Seq<ResurrectFinalizables>,
    from: int,
    lists: &DiscoveredLists,
    heap: &Heap,
    pending: Seq<ObjectReference>,
) -> bool {
    &&& forall|k: int|
        from <= k < units.len() ==> resurrection_ok(#[trigger] units[k], lists, heap, pending)
    &&& forall|k: int, l: int|
        from <= k < units.len() && from <= l < units.len() && k != l ==> disjoint(
            #[trigger] units[k].members(),
            #[trigger] units[l].members(),
        )
}

/// The resurrecting units of a well-formed registry can run one after the
/// other, once the lists of final references are emptied.
pub proof fn lemma_resurrections_runnable(
    made: &DiscoveredLists,
    lists: &DiscoveredLists,
    heap: &Heap,
    pending: Seq<ObjectReference>,
)
    requires
        made.wf(heap),
        made.apart_from(pending),
        made.cleared(lists, set![ReferenceType::Final]),
    ensures
        resurrections_runnable(
            ResurrectFinalizables::batch(made, made.workers() as int),
            0,
            lists,
            heap,
            pending,
        ),
{
    let all = made.workers() as int;
    let units = ResurrectFinalizables::batch(made, all);
    let rt = ReferenceType::Final;
    assert forall|k: int| 0 <= k < units.len() implies resurrection_ok(
        #[trigger] units[k],
        lists,
        heap,
        pending,
    ) by {
        ResurrectFinalizables::lemma_batch_units(made, all, k);
        let unit = units[k];
        let index = unit.spec_list_index() as int;
        let mine = unit.members();
        assert(made.list(rt, index).wf(heap));
        assert(disjoint(made.list(rt, index)@, pending));
        assert(disjoint(pending, mine)) by {
            assert forall|a: int, b: int|
                0 <= a < pending.len() && 0 <= b < mine.len() implies pending[a] != mine[b] by {
                assert(made.list(rt, index)@[b] != pending[a]);
            }
        }
        assert forall|rt2: ReferenceType, i: int| lists.slot(rt2, i) implies disjoint(
            (#[trigger] lists.list(rt2, i))@,
            mine,
        ) by {
            if rt2 != ReferenceType::Final {
                assert(lists.list(rt2, i) == made.list(rt2, i));
                assert(disjoint(made.list(rt2, i)@, made.list(rt, index)@));
            }
        }
    }
    assert forall|k: int, l: int|
        0 <= k < units.len() && 0 <= l < units.len() && k != l implies disjoint(
        #[trigger] units[k].members(),
        #[trigger] units[l].members(),
    ) by {
        ResurrectFinalizables::lemma_batch_units(made, all, k);
        ResurrectFinalizables::lemma_batch_units(made, all, l);
        if k < l {
            ResurrectFinalizables::lemma_batch_ordered(made, all, k, l);
        } else {
            ResurrectFinalizables::lemma_batch_ordered(made, all, l, k);
        }
        assert(disjoint(
            made.list(rt, units[k].spec_list_index() as int)@,
            made.list(rt, units[l].spec_list_index() as int)@,
        ));
    }
}

/// What the first `upto` resurrecting units put in front of the pending
/// list: all their members, those of the last unit first.
pub open spec fn resurrection_queue(
    units: Seq<ResurrectFinalizables>,
    heap: &Heap,
    upto: int,
) -> Seq<ObjectReference>
    decreases upto,
{
    if upto <= 0 {
        Seq::empty()
    } else {
        enqueued(Visit::Resurrect, heap, units[upto - 1].members()) + resurrection_queue(
            units,
            heap,
            upto - 1,
        )
    }
}

/// What a run of resurrecting units has done when all have run, told by
/// the heap `start` as it was before the first unit ran.
///
/// The pending list has grown by all the members of the units, in the order
/// that [`resurrection_queue`] gives. Every member holds the address at
/// which its referent, now settled, lives, or holds nothing if it held
/// nothing. The lists that the units stood for are empty. What the trace
/// had reached is marked and moved as it was.
#[verifier::opaque]
pub open spec fn resurrections_done(
    units: Seq<ResurrectFinalizables>,
    start: &Heap,
    heap: &Heap,
    lists: &DiscoveredLists,
    start_pending: Seq<ObjectReference>,
    pending: Seq<ObjectReference>,
) -> bool {
    &&& pending == resurrection_queue(units, start, units.len() as int) + start_pending
    &&& forall|k: int, j: int|
        0 <= k < units.len() && 0 <= j < units[k].members().len() ==> Visit::Resurrect.settles(
            start,
            heap,
            #[trigger] units[k].members()[j],
        )
    &&& forall|k: int|
        0 <= k < units.len() ==> lists.list(
            ReferenceType::Final,
            (#[trigger] units[k]).spec_list_index() as int,
        )@ == Seq::<ObjectReference>::empty()
    &&& reached_stay(start, heap)
}

/// What [`ResurrectFinalizables::do_work`] has done when `unit` has run.
pub open spec fn resurrection_ran(
    unit: ResurrectFinalizables,
    lists0: &DiscoveredLists,
    heap0: &Heap,
    pending0: Seq<ObjectReference>,
    lists: &DiscoveredLists,
    heap: &Heap,
    pending: Seq<ObjectReference>,
) -> bool {
    &&& heap0.evolves(heap, unit.members())
    &&& forall|j: int|
        0 <= j < unit.members().len() ==> Visit::Resurrect.settles(
            heap0,
            heap,
            #[trigger] unit.members()[j],
        )
    &&& pending == enqueued(Visit::Resurrect, heap0, unit.members()) + pending0
    &&& lists0.same_but(lists, ReferenceType::Final, unit.spec_list_index() as int)
    &&& lists.list(ReferenceType::Final, unit.spec_list_index() as int)@ == Seq::<
        ObjectReference,
    >::empty()
    &&& forall|j: int|
        0 <= j < pending0.len() ==> heap.object(#[trigger] pending0[j]) == heap0.object(
            pending0[j],
        )
}

/// How far a run of resurrecting units has come: it began with the heap
/// `start`, the registry `start_lists` and the pending list `start_pending`,
/// and the first `done` units have run.
#[verifier::opaque]
spec fn resurrections_progress(
    units: Seq<ResurrectFinalizables>,
    done: int,
    start: &Heap,
    heap: &Heap,
    start_lists: &DiscoveredLists,
    lists: &DiscoveredLists,
    start_pending: Seq<ObjectReference>,
    pending: Seq<ObjectReference>,
) -> bool {
    &&& start.wf()
    &&& forall|k: int, j: int|
        0 <= k < units.len() && 0 <= j < units[k].members().len() ==> start.settled(
            #[trigger] units[k].members()[j],
        )
    &&& forall|k: int, l: int|
        0 <= k < units.len() && 0 <= l < units.len() && k != l ==> disjoint(
            #[trigger] units[k].members(),
            #[trigger] units[l].members(),
        )
    &&& forall|k: int|
        0 <= k < units.len() ==> start_lists.slot(
            ReferenceType::Final,
            (#[trigger] units[k]).spec_list_index() as int,
        )
    &&& start_lists.workers() == lists.workers()
    &&& reached_stay(start, heap)
    &&& pending == resurrection_queue(units, start, done) + start_pending
    &&& forall|k: int, j: int|
        done <= k < units.len() && 0 <= j < units[k].members().len() ==> heap.object(
            #[trigger] units[k].members()[j],
        ) == start.object(units[k].members()[j])
    &&& forall|k: int, j: int|
        0 <= k < done && 0 <= j < units[k].members().len() ==> Visit::Resurrect.settles(
            start,
            heap,
            #[trigger] units[k].members()[j],
        )
    &&& forall|k: int|
        0 <= k < done ==> lists.list(
            ReferenceType::Final,
            (#[trigger] units[k]).spec_list_index() as int,
        )@ == Seq::<ObjectReference>::empty()
}

/// A run that has not begun has dealt with no unit.
proof fn lemma_resurrections_start(
    units: Seq<ResurrectFinalizables>,
    lists: &DiscoveredLists,
    heap: &Heap,
    pending: Seq<ObjectReference>,
)
    requires
        heap.wf(),
        resurrections_runnable(units, 0, lists, heap, pending),
    ensures
        resurrections_progress(units, 0, heap, heap, lists, lists, pending, pending),
{
    reveal(resurrections_progress);
    assert(pending =~= resurrection_queue(units, heap, 0) + pending);
    assert forall|k: int, j: int|
        0 <= k < units.len() && 0 <= j < units[k].members().len() implies heap.settled(
        #[trigger] units[k].members()[j],
    ) by {
        assert(resurrection_ok(units[k], lists, heap, pending));
    }
    assert forall|k: int| 0 <= k < units.len() implies lists.slot(
        ReferenceType::Final,
        (#[trigger] units[k]).spec_list_index() as int,
    ) by {
        assert(resurrection_ok(units[k], lists, heap, pending));
    }
}

/// What one more resurrecting unit adds to what a run has done so far.
proof fn lemma_resurrections_step(
    units: Seq<ResurrectFinalizables>,
    i: int,
    start: &Heap,
    heap0: &Heap,
    heap: &Heap,
    start_lists: &DiscoveredLists,
    lists0: &DiscoveredLists,
    lists: &DiscoveredLists,
    start_pending: Seq<ObjectReference>,
    pending0: Seq<ObjectReference>,
    pending: Seq<ObjectReference>,
)
    requires
        0 <= i < units.len(),
        resurrections_progress(
            units,
            i,
            start,
            heap0,
            start_lists,
            lists0,
            start_pending,
            pending0,
        ),
        resurrection_ran(units[i], lists0, heap0, pending0, lists, heap, pending),
    ensures
        resurrections_progress(
            units,
            i + 1,
            start,
            heap,
            start_lists,
            lists,
            start_pending,
            pending,
        ),
{
    reveal(resurrections_progress);
    let unit = units[i];
    let members = unit.members();
    lemma_reached_stay_step(start, heap0, heap, members);
    lemma_enqueued_alike(Visit::Resurrect, heap0, start, members);
    assert(pending =~= resurrection_queue(units, start, i + 1) + start_pending);
    assert forall|k: int, j: int|
        i + 1 <= k < units.len() && 0 <= j < units[k].members().len() implies heap.object(
        #[trigger] units[k].members()[j],
    ) == start.object(units[k].members()[j]) by {
        let m = units[k].members()[j];
        assert(start.settled(m));
        assert(heap0.object(m) == start.object(m));
        assert(disjoint(units[k].members(), units[i].members()));
        assert(!members.contains(m));
    }
    assert forall|k: int, j: int|
        0 <= k < i + 1 && 0 <= j < units[k].members().len() implies Visit::Resurrect.settles(
        start,
        heap,
        #[trigger] units[k].members()[j],
    ) by {
        let m = units[k].members()[j];
        assert(start.settled(m));
        if k < i {
            assert(disjoint(units[k].members(), units[i].members()));
            assert(!members.contains(m));
            let _ = heap.object(m);
            lemma_settles_stable(Visit::Resurrect, start, heap0, heap, members, m);
        } else {
            assert(heap0.object(m) == start.object(m));
            assert(Visit::Resurrect.settles(heap0, heap, members[j]));
        }
    }
    assert forall|k: int| 0 <= k < i + 1 implies lists.list(
        ReferenceType::Final,
        (#[trigger] units[k]).spec_list_index() as int,
    )@ == Seq::<ObjectReference>::empty() by {
        if k < i && units[k].spec_list_index() != unit.spec_list_index() {
            assert(lists0.slot(ReferenceType::Final, units[k].spec_list_index() as int));
            assert(lists.list(ReferenceType::Final, units[k].spec_list_index() as int)
                == lists0.list(ReferenceType::Final, units[k].spec_list_index() as int));
        }
    }
}

/// What a run has done when every resurrecting unit has run.
proof fn lemma_resurrections_end(
    units: Seq<ResurrectFinalizables>,
    start: &Heap,
    heap: &Heap,
    start_lists: &DiscoveredLists,
    lists: &DiscoveredLists,
    start_pending: Seq<ObjectReference>,
    pending: Seq<ObjectReference>,
)
    requires
        resurrections_progress(
            units,
            units.len() as int,
            start,
            heap,
            start_lists,
            lists,
            start_pending,
            pending,
        ),
    ensures
        resurrections_done(units, start, heap, lists, start_pending, pending),
{
    reveal(resurrections_progress);
    reveal(resurrections_done);
}

/// Runs the resurrecting units one after the other.
///
/// Each unit does what [`ResurrectFinalizables::do_work`] says, on the heap
/// as the units before it have left it. When all have run, every member of
/// every unit is in the pending list, in front of what was pending before
/// and in the order that [`resurrection_queue`] gives, and holds the address
/// at which its referent, now settled, lives; the lists that the units
/// stood for are empty: see [`resurrections_done`]. The registry and the
/// pending list are well formed and share no member, and what was pending
/// before is as it was.
#[verifier::rlimit(30)]
pub fn run_resurrections(
    units: &Vec<ResurrectFinalizables>,
    lists: &mut DiscoveredLists,
    heap: &mut Heap,
    pending: &mut PendingList,
)
    requires
        old(heap).wf(),
        old(lists).wf(old(heap)),
        old(pending).wf(old(heap)),
        old(lists).apart_from(old(pending)@),
        resurrections_runnable(units@, 0, old(lists), old(heap), old(pending)@),
    ensures
        final(heap).wf(),
        final(lists).wf(final(heap)),
        final(pending).wf(final(heap)),
        final(lists).apart_from(final(pending)@),
        old(lists).workers() == final(lists).workers(),
        forall|rt: ReferenceType, i: int|
            old(lists).slot(rt, i) ==> within(
                (#[trigger] final(lists).list(rt, i))@,
                old(lists).list(rt, i)@,
            ) && (rt != ReferenceType::Final ==> final(lists).list(rt, i) == old(lists).list(
                rt,
                i,
            )),
        old(pending)@.len() <= final(pending)@.len(),
        final(pending)@.subrange(
            final(pending)@.len() - old(pending)@.len(),
            final(pending)@.len() as int,
        ) == old(pending)@,
        forall|i: int|
            0 <= i < old(pending)@.len() ==> final(heap).object(#[trigger] old(pending)@[i])
                == old(heap).object(old(pending)@[i]),
        forall|i: int|
            0 <= i < final(pending)@.len() - old(pending)@.len() ==> resurrected(
                final(heap),
                #[trigger] final(pending)@[i],
            ),
        resurrections_done(
            units@,
            old(heap),
            final(heap),
            final(lists),
            old(pending)@,
            final(pending)@,
        ),
{
    let mut i: usize = 0;
    proof {
        assert(pending@.subrange(0, pending@.len() as int) =~= pending@);
        lemma_resurrections_start(units@, lists, heap, pending@);
    }
    while i < units.len()
        invariant
            0 <= i <= units.len(),
            resurrections_progress(
                units@,
                i as int,
                old(heap),
                heap,
                old(lists),
                lists,
                old(pending)@,
                pending@,
            ),
            heap.wf(),
            lists.wf(heap),
            pending.wf(heap),
            lists.apart_from(pending@),
            resurrections_runnable(units@, i as int, lists, heap, pending@),
            old(lists).workers() == lists.workers(),
            forall|rt: ReferenceType, j: int|
                old(lists).slot(rt, j) ==> within(
                    (#[trigger] lists.list(rt, j))@,
                    old(lists).list(rt, j)@,
                ) && (rt != ReferenceType::Final ==> lists.list(rt, j) == old(lists).list(rt, j)),
            old(pending)@.len() <= pending@.len(),
            pending@.subrange(pending@.len() - old(pending)@.len(), pending@.len() as int) == old(
                pending,
            )@,
            forall|j: int|
                0 <= j < old(pending)@.len() ==> heap.object(#[trigger] old(pending)@[j]) == old(
                    heap,
                ).object(old(pending)@[j]),
            forall|j: int|
                0 <= j < pending@.len() - old(pending)@.len() ==> resurrected(
                    heap,
                    #[trigger] pending@[j],
                ),
        decreases units.len() - i,
    {
        let ghost lists0 = *lists;
        let ghost heap0 = *heap;
        let ghost pending0 = pending@;
        let unit = units[i];
        let ghost kept = enqueued(Visit::Resurrect, &heap0, unit.members());
        proof {
            assert(resurrection_ok(units@[i as int], &lists0, &heap0, pending0));
        }
        unit.do_work(lists, heap, pending);
        proof {
            lemma_resurrections_step(
                units@,
                i as int,
                old(heap),
                &heap0,
                heap,
                old(lists),
                &lists0,
                lists,
                old(pending)@,
                pending0,
                pending@,
            );
        }
        proof {
            let members = unit.members();
            lemma_enqueued_members(Visit::Resurrect, &heap0, members);
            assert(within(kept, members)) by {
                assert forall|k: int| 0 <= k < kept.len() implies members.contains(
                    #[trigger] kept[k],
                ) by {
                    assert(kept.contains(kept[k]));
                }
            }
            assert forall|l: int| i + 1 <= l < units@.len() implies resurrection_ok(
                #[trigger] units@[l],
                lists,
                heap,
                pending@,
            ) by {
                let waiting = units@[l];
                let mine = waiting.members();
                assert(resurrection_ok(waiting, &lists0, &heap0, pending0));
                assert(disjoint(mine, units@[i as int].members()));
                lemma_discovered_chain_frame(
                    &heap0,
                    heap,
                    members,
                    Some(waiting.spec_head()),
                    mine,
                );
                assert forall|a: int, b: int|
                    0 <= a < pending@.len() && 0 <= b < mine.len() implies pending@[a]
                    != mine[b] by {
                    if a < kept.len() {
                        assert(members.contains(kept[a]));
                        let m = choose|m: int| 0 <= m < members.len() && members[m] == kept[a];
                        assert(mine[b] != members[m]);
                    } else {
                        assert(pending@[a] == pending0[a - kept.len()]);
                    }
                }
                assert forall|rt: ReferenceType, j: int| lists.slot(rt, j) implies disjoint(
                    (#[trigger] lists.list(rt, j))@,
                    mine,
                ) by {
                    assert(disjoint(lists0.list(rt, j)@, mine));
                    if !(rt == ReferenceType::Final && j == unit.spec_list_index()) {
                        assert(lists.list(rt, j) == lists0.list(rt, j));
                    }
                }
            }
            assert forall|rt: ReferenceType, j: int| lists.slot(rt, j) implies disjoint(
                (#[trigger] lists.list(rt, j))@,
                pending@,
            ) by {
                let is = lists.list(rt, j)@;
                assert(disjoint(lists0.list(rt, j)@, pending0));
                assert(disjoint(lists0.list(rt, j)@, members));
                if !(rt == ReferenceType::Final && j == unit.spec_list_index()) {
                    assert(lists.list(rt, j) == lists0.list(rt, j));
                    assert forall|a: int, b: int|
                        0 <= a < is.len() && 0 <= b < pending@.len() implies is[a]
                        != pending@[b] by {
                        if b < kept.len() {
                            assert(members.contains(kept[b]));
                            let m = choose|m: int| 0 <= m < members.len() && members[m] == kept[b];
                            assert(is[a] != members[m]);
                        } else {
                            assert(pending@[b] == pending0[b - kept.len()]);
                        }
                    }
                }
            }
            assert forall|rt: ReferenceType, j: int| old(lists).slot(rt, j) implies within(
                (#[trigger] lists.list(rt, j))@,
                old(lists).list(rt, j)@,
            ) && (rt != ReferenceType::Final ==> lists.list(rt, j) == old(lists).list(rt, j)) by {
                assert(within(lists0.list(rt, j)@, old(lists).list(rt, j)@));
                if !(rt == ReferenceType::Final && j == unit.spec_list_index()) {
                    assert(lists.list(rt, j) == lists0.list(rt, j));
                }
            }
            assert(pending@.subrange(pending@.len() - old(pending)@.len(), pending@.len() as int)
                =~= old(pending)@) by {
                assert forall|j: int| 0 <= j < old(pending)@.len() implies pending@[pending@.len()
                    - old(pending)@.len() + j] == old(pending)@[j] by {
                    assert(pending0.subrange(
                        pending0.len() - old(pending)@.len(),
                        pending0.len() as int,
                    )[j] == pending0[pending0.len() - old(pending)@.len() + j]);
                }
            }
            assert forall|j: int| 0 <= j < old(pending)@.len() implies heap.object(
                #[trigger] old(pending)@[j],
            ) == old(heap).object(old(pending)@[j]) by {
                let at = pending0.len() - old(pending)@.len() + j;
                assert(pending0.subrange(
                    pending0.len() - old(pending)@.len(),
                    pending0.len() as int,
                )[j] == pending0[at]);
                assert(heap.object(pending0[at]) == heap0.object(pending0[at]));
            }
            assert forall|j: int| 0 <= j < pending@.len() - old(pending)@.len() implies resurrected(
                heap,
                #[trigger] pending@[j],
            ) by {
                if j < kept.len() {
                    assert(pending@[j] == kept[j]);
                    assert(kept.contains(kept[j]));
                    let m = choose|m: int| 0 <= m < members.len() && members[m] == kept[j];
                    assert(Visit::Resurrect.settles(&heap0, heap, members[m]));
                } else {
                    let jj = j - kept.len();
                    assert(pending@[j] == pending0[jj]);
                    assert(heap.object(pending0[jj]) == heap0.object(pending0[jj]));
                    assert(resurrected(&heap0, pending0[jj]));
                    if heap0.referent(pending0[jj]) is Some {
                        let _ = heap.object(heap0.referent(pending0[jj]).unwrap());
                    }
                }
            }
        }
        i = i + 1;
    }
    proof {
        lemma_resurrections_end(
            units@,
            old(heap),
            heap,
            old(lists),
            lists,
            old(pending)@,
            pending@,
        );
    }
}

/// The referent of `reference`, if it has one, is settled: reached by the
/// trace and where it now lives.
pub open spec fn resurrected(heap: &Heap, reference: ObjectReference) -> bool {
    heap.referent(reference) is Some ==> heap.settled(heap.referent(reference).unwrap())
}

} // verus!
