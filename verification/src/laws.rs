//! What holds of discovery and processing taken together, stated over the
//! same notions as the contracts of the functions and proved from them.

use vstd::prelude::*;
use crate::abi::{ObjectReference, ReferenceType};
use crate::heap::Heap;
use crate::processing::{enqueued, head_of, lemma_enqueued_members, Visit};
use crate::reference_glue::{
    disjoint, is_discovered_chain, is_pending_chain, lemma_linked_lists, links_to, successor,
    DiscoveredLists, ProcessDiscoveredList, ResurrectFinalizables,
};

verus! {

/// `after` is what one call of `discover` makes of `before`: with the
/// discovery gate saying `open`, for the reference `reference`, into a list
/// whose head is `head`.
pub open spec fn discovery_step(
    before: &Heap,
    after: &Heap,
    open: bool,
    head: Option<ObjectReference>,
    reference: ObjectReference,
) -> bool {
    if open && before.discovered(reference) is None {
        after@ == before@.update(
            reference.addr as int,
            before.object(reference).with_discovered(
                Some(
                    match head {
                        Some(h) => h,
                        None => reference,
                    },
                ),
            ),
        )
    } else {
        after@ == before@
    }
}

/// Whether a call of `discover` for `reference` returns `true`.
pub open spec fn discovery_succeeds(heap: &Heap, open: bool, reference: ObjectReference) -> bool {
    open && heap.discovered(reference) is None
}

/// No duplication. Once a reference has been discovered, no later call of
/// `discover` for it succeeds, whatever the discovery gate says and however
/// many other references are discovered in between: the first discovery
/// fills its `discovered` field, a filled field makes `discover` fail, and
/// no call of `discover` empties a filled field.
pub proof fn law_no_duplication(
    before: &Heap,
    first: &Heap,
    then: &Heap,
    reference: ObjectReference,
    head: Option<ObjectReference>,
    other: ObjectReference,
    other_open: bool,
    other_head: Option<ObjectReference>,
    again_open: bool,
)
    requires
        before.contains(reference),
        discovery_succeeds(before, true, reference),
        discovery_step(before, first, true, head, reference),
        first.contains(other),
        discovery_step(first, then, other_open, other_head, other),
    ensures
        !discovery_succeeds(first, again_open, reference),
        !discovery_succeeds(then, again_open, reference),
{
}

/// The member of a discovered list that is reached from `start` after
/// `steps` steps along the `discovered` fields, forwarding pointers followed.
pub open spec fn walk(heap: &Heap, start: ObjectReference, steps: nat) -> ObjectReference
    decreases steps,
{
    if steps == 0 {
        heap.resolve(start)
    } else {
        heap.resolve(heap.discovered(walk(heap, start, (steps - 1) as nat)).unwrap())
    }
}

/// The walk from the head of a discovered list visits the members in order.
pub proof fn lemma_walk_visits(
    heap: &Heap,
    head: ObjectReference,
    nodes: Seq<ObjectReference>,
    steps: nat,
)
    requires
        is_discovered_chain(heap, Some(head), nodes),
        steps < nodes.len(),
    ensures
        walk(heap, head, steps) == nodes[steps as int],
    decreases steps,
{
    if steps > 0 {
        lemma_walk_visits(heap, head, nodes, (steps - 1) as nat);
        assert(links_to(heap, nodes[steps - 1], successor(nodes, steps - 1)));
    }
}

/// Sentinel correctness. The walk from the head of a non-empty discovered
/// list comes to a member that is linked to itself when it has visited as
/// many members as the list has, and to none before.
pub proof fn law_sentinel(heap: &Heap, head: ObjectReference, nodes: Seq<ObjectReference>)
    requires
        is_discovered_chain(heap, Some(head), nodes),
    ensures
        nodes.len() > 0,
        links_to(
            heap,
            walk(heap, head, (nodes.len() - 1) as nat),
            walk(heap, head, (nodes.len() - 1) as nat),
        ),
        forall|steps: nat|
            steps + 1 < nodes.len() ==> !links_to(
                heap,
                #[trigger] walk(heap, head, steps),
                walk(heap, head, steps),
            ),
{
    let last = (nodes.len() - 1) as nat;
    lemma_walk_visits(heap, head, nodes, last);
    assert(links_to(heap, nodes[last as int], successor(nodes, last as int)));
    assert forall|steps: nat| steps + 1 < nodes.len() implies !links_to(
        heap,
        #[trigger] walk(heap, head, steps),
        walk(heap, head, steps),
    ) by {
        lemma_walk_visits(heap, head, nodes, steps);
        assert(links_to(heap, nodes[steps as int], successor(nodes, steps as int)));
        assert(nodes[steps as int] != nodes[steps as int + 1]);
    }
}

/// The sentinel after a discovery. When a settled reference that is in no
/// list is discovered into a list of `nodes.len()` members, the list has one
/// member more: the reference is the first, linked to the old head or, in a
/// list that was empty, to itself, and the old members follow in their old
/// order. The walk from the new head visits them in that order, comes to
/// the member that is linked to itself when it has visited all
/// `nodes.len() + 1`, and to none before.
pub proof fn law_sentinel_after_discovery(
    before: &Heap,
    after: &Heap,
    head: Option<ObjectReference>,
    nodes: Seq<ObjectReference>,
    reference: ObjectReference,
)
    requires
        is_discovered_chain(before, head, nodes),
        before.settled(reference),
        discovery_succeeds(before, true, reference),
        discovery_step(before, after, true, head, reference),
    ensures
        is_discovered_chain(after, Some(reference), seq![reference] + nodes),
        after.discovered(reference) == Some(
            match head {
                Some(h) => h,
                None => reference,
            },
        ),
        forall|steps: nat|
            steps <= nodes.len() ==> #[trigger] walk(after, reference, steps) == (seq![reference]
                + nodes)[steps as int],
        links_to(
            after,
            walk(after, reference, nodes.len()),
            walk(after, reference, nodes.len()),
        ),
        forall|steps: nat|
            steps < nodes.len() ==> !links_to(
                after,
                #[trigger] walk(after, reference, steps),
                walk(after, reference, steps),
            ),
{
    let grown = seq![reference] + nodes;
    assert forall|i: int| 0 <= i < nodes.len() implies nodes[i] != reference
        && after.object(#[trigger] nodes[i]) == before.object(nodes[i]) by {
        assert(links_to(before, nodes[i], successor(nodes, i)));
        assert(before.settled(nodes[i]));
    }
    assert forall|i: int| 0 <= i < grown.len() implies after.settled(#[trigger] grown[i]) by {
        if i > 0 {
            assert(grown[i] == nodes[i - 1]);
            assert(before.settled(nodes[i - 1]));
        }
    }
    assert forall|i: int| 0 <= i < grown.len() implies links_to(
        after,
        #[trigger] grown[i],
        successor(grown, i),
    ) by {
        if i > 0 {
            assert(grown[i] == nodes[i - 1]);
            assert(links_to(before, nodes[i - 1], successor(nodes, i - 1)));
            assert(successor(grown, i) == successor(nodes, i - 1));
            let x = before.discovered(nodes[i - 1]).unwrap();
            assert(before.settled(successor(nodes, i - 1)));
            if before.forwarded(x) is None {
                assert(x == successor(nodes, i - 1));
            }
            assert(after.object(x).forwarding == before.object(x).forwarding);
        } else if nodes.len() > 0 {
            assert(grown[1] == nodes[0]);
            let h = head.unwrap();
            assert(before.settled(nodes[0]));
            if before.forwarded(h) is None {
                assert(h == nodes[0]);
            }
            assert(after.object(h).forwarding == before.object(h).forwarding);
        }
    }
    assert(grown.no_duplicates()) by {
        assert forall|i: int, j: int|
            0 <= i < grown.len() && 0 <= j < grown.len() && i != j implies grown[i]
            != grown[j] by {
            if i > 0 {
                assert(grown[i] == nodes[i - 1]);
            }
            if j > 0 {
                assert(grown[j] == nodes[j - 1]);
            }
        }
    }
    assert(is_discovered_chain(after, Some(reference), grown));
    assert forall|steps: nat| steps <= nodes.len() implies #[trigger] walk(
        after,
        reference,
        steps,
    ) == grown[steps as int] by {
        lemma_walk_visits(after, reference, grown, steps);
    }
    law_sentinel(after, reference, grown);
    assert(walk(after, reference, nodes.len()) == walk(
        after,
        reference,
        (grown.len() - 1) as nat,
    ));
}

/// Clearing. A soft, weak or phantom reference whose referent the trace has
/// not reached, and which is not retained, has an empty `referent` field
/// after its list was processed, and is a member of the pending list exactly
/// once: it is a member, and no member occurs twice.
pub proof fn law_clearing(
    before: &Heap,
    after: &Heap,
    rt: ReferenceType,
    retain: bool,
    members: Seq<ObjectReference>,
    pending_before: Seq<ObjectReference>,
    pending_after: Seq<ObjectReference>,
    reference: ObjectReference,
    referent: ObjectReference,
)
    requires
        rt != ReferenceType::Final,
        members.contains(reference),
        before.referent(reference) == Some(referent),
        !before.reachable(referent),
        !retain,
        (Visit::Classify { rt, retain }).settles(before, after, reference),
        pending_after == enqueued(Visit::Classify { rt, retain }, before, members)
            + pending_before,
        is_pending_chain(after, head_of(pending_after), pending_after),
    ensures
        after.referent(reference) is None,
        pending_after.contains(reference),
        pending_after.no_duplicates(),
{
    let how = Visit::Classify { rt, retain };
    let kept = enqueued(how, before, members);
    lemma_enqueued_members(how, before, members);
    assert(kept.contains(reference));
    let k = choose|k: int| 0 <= k < kept.len() && kept[k] == reference;
    assert(pending_after[k] == reference);
}

/// Survival. A reference whose referent the trace has reached holds the
/// address at which the referent now lives after its list was processed,
/// and is no member of the pending list, unless it was one before.
pub proof fn law_survival(
    before: &Heap,
    after: &Heap,
    rt: ReferenceType,
    retain: bool,
    members: Seq<ObjectReference>,
    pending_before: Seq<ObjectReference>,
    pending_after: Seq<ObjectReference>,
    reference: ObjectReference,
    referent: ObjectReference,
)
    requires
        members.contains(reference),
        before.referent(reference) == Some(referent),
        before.reachable(referent),
        (Visit::Classify { rt, retain }).settles(before, after, reference),
        pending_after == (if rt == ReferenceType::Final {
            pending_before
        } else {
            enqueued(Visit::Classify { rt, retain }, before, members) + pending_before
        }),
        disjoint(pending_before, members),
    ensures
        after.referent(reference) == Some(after.resolve(referent)),
        after.settled(after.resolve(referent)),
        !pending_after.contains(reference),
        !enqueued(Visit::Classify { rt, retain }, before, members).contains(reference),
{
    let how = Visit::Classify { rt, retain };
    let kept = enqueued(how, before, members);
    lemma_enqueued_members(how, before, members);
    assert(!kept.contains(reference));
    let m = choose|m: int| 0 <= m < members.len() && members[m] == reference;
    if pending_after.contains(reference) {
        let k = choose|k: int| 0 <= k < pending_after.len() && pending_after[k] == reference;
        if rt != ReferenceType::Final && k < kept.len() {
            assert(kept[k] == reference);
        } else {
            let kk = if rt == ReferenceType::Final {
                k
            } else {
                k - kept.len()
            };
            assert(pending_before[kk] != members[m]);
        }
    }
}

/// Final references are not cleared. A final reference whose referent the
/// trace has not reached keeps its `referent` field when its list is
/// processed, and stays in the list. Once the list is resurrected, the field
/// holds the address at which the referent now lives, and the reference is a
/// member of the pending list exactly once.
pub proof fn law_final_not_cleared(
    before: &Heap,
    processed: &Heap,
    resurrected: &Heap,
    members: Seq<ObjectReference>,
    pending_before: Seq<ObjectReference>,
    pending_after: Seq<ObjectReference>,
    reference: ObjectReference,
    referent: ObjectReference,
)
    requires
        members.contains(reference),
        before.referent(reference) == Some(referent),
        !before.reachable(referent),
        (Visit::Classify { rt: ReferenceType::Final, retain: false }).settles(
            before,
            processed,
            reference,
        ),
        Visit::Resurrect.settles(processed, resurrected, reference),
        pending_after == enqueued(
            Visit::Resurrect,
            processed,
            enqueued(
                Visit::Classify { rt: ReferenceType::Final, retain: false },
                before,
                members,
            ),
        ) + pending_before,
        is_pending_chain(resurrected, head_of(pending_after), pending_after),
    ensures
        processed.referent(reference) == Some(referent),
        enqueued(
            Visit::Classify { rt: ReferenceType::Final, retain: false },
            before,
            members,
        ).contains(reference),
        resurrected.referent(reference) == Some(resurrected.resolve(referent)),
        resurrected.settled(resurrected.resolve(referent)),
        pending_after.contains(reference),
        pending_after.no_duplicates(),
{
    let classify = Visit::Classify { rt: ReferenceType::Final, retain: false };
    let survivors = enqueued(classify, before, members);
    lemma_enqueued_members(classify, before, members);
    lemma_enqueued_members(Visit::Resurrect, processed, survivors);
    let kept = enqueued(Visit::Resurrect, processed, survivors);
    assert(kept.contains(reference));
    let k = choose|k: int| 0 <= k < kept.len() && kept[k] == reference;
    assert(pending_after[k] == reference);
}

/// Merge completeness. When a new list of `kept.len()` members is put in
/// front of the pending list, the pending list has that many members more,
/// and every member it had is the same object as before, linked as before.
pub proof fn law_merge_complete(
    before: &Heap,
    after: &Heap,
    kept: Seq<ObjectReference>,
    pending: Seq<ObjectReference>,
)
    requires
        kept.len() > 0,
        is_pending_chain(before, head_of(kept), kept),
        is_pending_chain(before, head_of(pending), pending),
        disjoint(kept, pending),
        after@ == before@.update(
            kept.last().addr as int,
            before.object(kept.last()).with_discovered(head_of(pending)),
        ),
    ensures
        (kept + pending).len() == pending.len() + kept.len(),
        is_pending_chain(after, head_of(kept + pending), kept + pending),
        is_pending_chain(after, head_of(pending), pending),
        forall|i: int|
            0 <= i < pending.len() ==> after.object(#[trigger] pending[i]) == before.object(
                pending[i],
            ),
        forall|i: int| 0 <= i < pending.len() ==> (kept + pending)[kept.len() + i] == pending[i],
{
    lemma_linked_lists(before, after, kept, pending);
    assert forall|i: int| 0 <= i < pending.len() implies after.settled(#[trigger] pending[i]) by {
        assert(before.settled(pending[i]));
    }
}

/// One unit per list. The units of work made for a kind of reference stand
/// for the non-empty lists of that kind, one for one and in the order of the
/// workers: a list has a unit if and only if it has a member, and each unit
/// holds the head and the members of its list and is ready to run.
pub proof fn law_one_unit_per_list(
    lists: &DiscoveredLists,
    heap: &Heap,
    rt: ReferenceType,
    worker: int,
)
    requires
        lists.wf(heap),
        lists.slot(rt, worker),
    ensures
        lists.list(rt, worker).spec_head() is Some <==> exists|k: int|
            0 <= k < ProcessDiscoveredList::batch(lists, rt, lists.workers() as int).len() && (
            #[trigger] ProcessDiscoveredList::batch(
                lists,
                rt,
                lists.workers() as int,
            )[k]).spec_list_index() == worker,
        forall|k: int|
            0 <= k < ProcessDiscoveredList::batch(lists, rt, lists.workers() as int).len() ==> {
                let unit = #[trigger] ProcessDiscoveredList::batch(
                    lists,
                    rt,
                    lists.workers() as int,
                )[k];
                &&& unit.spec_kind() == rt
                &&& lists.slot(rt, unit.spec_list_index() as int)
                &&& unit.members() == lists.list(rt, unit.spec_list_index() as int)@
                &&& Some(unit.spec_head()) == lists.list(
                    rt,
                    unit.spec_list_index() as int,
                ).spec_head()
                &&& unit.ready(heap)
                &&& k > 0 ==> ProcessDiscoveredList::batch(
                    lists,
                    rt,
                    lists.workers() as int,
                )[k - 1].spec_list_index() < unit.spec_list_index()
            },
{
    let all = lists.workers() as int;
    let batch = ProcessDiscoveredList::batch(lists, rt, all);
    assert forall|k: int| 0 <= k < batch.len() implies {
        let unit = #[trigger] batch[k];
        &&& unit.spec_kind() == rt
        &&& lists.slot(rt, unit.spec_list_index() as int)
        &&& unit.members() == lists.list(rt, unit.spec_list_index() as int)@
        &&& Some(unit.spec_head()) == lists.list(rt, unit.spec_list_index() as int).spec_head()
        &&& unit.ready(heap)
        &&& k > 0 ==> batch[k - 1].spec_list_index() < unit.spec_list_index()
    } by {
        ProcessDiscoveredList::lemma_batch_units(lists, rt, all, k);
        assert(lists.list(rt, batch[k].spec_list_index() as int).wf(heap));
    }
    if lists.list(rt, worker).spec_head() is Some {
        ProcessDiscoveredList::lemma_batch_covers(lists, rt, all, worker);
    }
    if exists|k: int| 0 <= k < batch.len() && (#[trigger] batch[k]).spec_list_index() == worker {
        let k = choose|k: int|
            0 <= k < batch.len() && (#[trigger] batch[k]).spec_list_index() == worker;
        ProcessDiscoveredList::lemma_batch_units(lists, rt, all, k);
    }
}

/// One unit per list of final references. The units of work that resurrect
/// stand for the non-empty lists of final references, one for one and in the
/// order of the workers, and each is ready to run.
pub proof fn law_one_resurrection_per_list(lists: &DiscoveredLists, heap: &Heap, worker: int)
    requires
        lists.wf(heap),
        lists.slot(ReferenceType::Final, worker),
    ensures
        lists.list(ReferenceType::Final, worker).spec_head() is Some <==> exists|k: int|
            0 <= k < ResurrectFinalizables::batch(lists, lists.workers() as int).len() && (
            #[trigger] ResurrectFinalizables::batch(
                lists,
                lists.workers() as int,
            )[k]).spec_list_index() == worker,
        forall|k: int|
            0 <= k < ResurrectFinalizables::batch(lists, lists.workers() as int).len() ==> {
                let unit = #[trigger] ResurrectFinalizables::batch(
                    lists,
                    lists.workers() as int,
                )[k];
                &&& lists.slot(ReferenceType::Final, unit.spec_list_index() as int)
                &&& unit.members() == lists.list(
                    ReferenceType::Final,
                    unit.spec_list_index() as int,
                )@
                &&& Some(unit.spec_head()) == lists.list(
                    ReferenceType::Final,
                    unit.spec_list_index() as int,
                ).spec_head()
                &&& unit.ready(heap)
                &&& k > 0 ==> ResurrectFinalizables::batch(
                    lists,
                    lists.workers() as int,
                )[k - 1].spec_list_index() < unit.spec_list_index()
            },
{
    let all = lists.workers() as int;
    let batch = ResurrectFinalizables::batch(lists, all);
    assert forall|k: int| 0 <= k < batch.len() implies {
        let unit = #[trigger] batch[k];
        &&& lists.slot(ReferenceType::Final, unit.spec_list_index() as int)
        &&& unit.members() == lists.list(ReferenceType::Final, unit.spec_list_index() as int)@
        &&& Some(unit.spec_head()) == lists.list(
            ReferenceType::Final,
            unit.spec_list_index() as int,
        ).spec_head()
        &&& unit.ready(heap)
        &&& k > 0 ==> batch[k - 1].spec_list_index() < unit.spec_list_index()
    } by {
        ResurrectFinalizables::lemma_batch_units(lists, all, k);
        assert(lists.list(ReferenceType::Final, batch[k].spec_list_index() as int).wf(heap));
    }
    if lists.list(ReferenceType::Final, worker).spec_head() is Some {
        ResurrectFinalizables::lemma_batch_covers(lists, all, worker);
    }
    if exists|k: int| 0 <= k < batch.len() && (#[trigger] batch[k]).spec_list_index() == worker {
        let k = choose|k: int|
            0 <= k < batch.len() && (#[trigger] batch[k]).spec_list_index() == worker;
        ResurrectFinalizables::lemma_batch_units(lists, all, k);
    }
}

} // verus!
