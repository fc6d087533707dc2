use refglue::abi::{KlassID, ObjectReference, OopDesc, ReferenceType};
use refglue::collection::VMCollection;
use refglue::heap::Heap;
use refglue::processing::{visit, DiscoveredListIterationResult, Visit};
use refglue::reference_glue::{DiscoveredLists, PendingList, ReferenceOptions};
use refglue::schedule::{run_resurrections, run_units};

fn object(heap: &mut Heap, relocates: bool) -> ObjectReference {
    heap.allocate(OopDesc::plain(KlassID::Instance, relocates))
}

fn discovered(
    heap: &mut Heap,
    lists: &mut DiscoveredLists,
    worker: usize,
    rt: ReferenceType,
    referent: ObjectReference,
) -> ObjectReference {
    let r = heap.allocate(OopDesc::reference(rt, Some(referent), false));
    assert_eq!(heap.trace_object(r), r);
    assert!(lists.discover(heap, worker, r, referent, rt));
    r
}

fn on() -> ReferenceOptions {
    ReferenceOptions { no_reference_types: false, no_finalizer: false }
}

fn pending_members(heap: &Heap, pending: &PendingList) -> Vec<ObjectReference> {
    let mut members = Vec::new();
    let mut at = pending.head();
    while let Some(r) = at {
        members.push(r);
        assert!(members.len() <= heap.len());
        at = heap.load_discovered(r);
    }
    members
}

fn process_all(
    lists: &mut DiscoveredLists,
    heap: &mut Heap,
    pending: &mut PendingList,
    emergency: bool,
) -> usize {
    let packets = lists.process_soft_weak_final_refs(on());
    for p in packets.iter() {
        p.do_work(lists, heap, pending, emergency);
    }
    packets.len()
}

#[test]
fn three_weak_references_dead_alive_empty() {
    let mut heap = Heap::new();
    let mut lists = DiscoveredLists::new(1);
    let dead = object(&mut heap, false);
    let alive = object(&mut heap, true);
    let gone = object(&mut heap, false);
    let w1 = discovered(&mut heap, &mut lists, 0, ReferenceType::Weak, dead);
    let w2 = discovered(&mut heap, &mut lists, 0, ReferenceType::Weak, alive);
    let w3 = discovered(&mut heap, &mut lists, 0, ReferenceType::Weak, gone);
    // The trace reaches the second referent and moves it; the program
    // empties the third reference.
    let moved = heap.trace_object(alive);
    assert!(moved != alive);
    heap.store_referent(w3, None);

    let mut pending = PendingList::new();
    assert_eq!(process_all(&mut lists, &mut heap, &mut pending, false), 1);

    assert_eq!(pending_members(&heap, &pending), vec![w1]);
    assert_eq!(heap.load_referent(w1), None);
    assert_eq!(heap.load_discovered(w1), None);
    assert_eq!(heap.load_referent(w2), Some(moved));
    assert_eq!(heap.load_discovered(w2), None);
    assert_eq!(heap.load_referent(w3), None);
    assert_eq!(heap.load_discovered(w3), None);
    assert_eq!(lists.get_by_rt_and_index(ReferenceType::Weak, 0).head(), None);
    assert!(!heap.is_reachable(dead));
}

#[test]
fn cleared_references_are_pending_exactly_once() {
    let mut heap = Heap::new();
    let mut lists = DiscoveredLists::new(2);
    let mut cleared = Vec::new();
    for k in 0..6 {
        let t = object(&mut heap, false);
        let rt = if k % 2 == 0 { ReferenceType::Weak } else { ReferenceType::Soft };
        cleared.push(discovered(&mut heap, &mut lists, k % 2, rt, t));
    }
    let mut pending = PendingList::new();
    // An emergency collection retains no soft reference.
    assert_eq!(process_all(&mut lists, &mut heap, &mut pending, true), 2);
    let members = pending_members(&heap, &pending);
    assert_eq!(members.len(), 6);
    for r in cleared {
        assert_eq!(members.iter().filter(|m| **m == r).count(), 1);
        assert_eq!(heap.load_referent(r), None);
    }
}

#[test]
fn enqueued_members_come_out_in_discovery_order() {
    let mut heap = Heap::new();
    let mut lists = DiscoveredLists::new(1);
    let mut made = Vec::new();
    for _ in 0..3 {
        let t = object(&mut heap, false);
        made.push(discovered(&mut heap, &mut lists, 0, ReferenceType::Weak, t));
    }
    let mut pending = PendingList::new();
    process_all(&mut lists, &mut heap, &mut pending, false);
    // The list is a stack, and so is the list of what is kept.
    assert_eq!(pending_members(&heap, &pending), made);
}

#[test]
fn reachable_referent_survives_and_is_not_pending() {
    let mut heap = Heap::new();
    let mut lists = DiscoveredLists::new(1);
    let stays = object(&mut heap, false);
    let moves = object(&mut heap, true);
    let phantom_stays = discovered(&mut heap, &mut lists, 0, ReferenceType::Phantom, stays);
    let phantom_moves = discovered(&mut heap, &mut lists, 0, ReferenceType::Phantom, moves);
    assert_eq!(heap.trace_object(stays), stays);
    let moved = heap.trace_object(moves);
    let mut pending = PendingList::new();
    let packets = lists.process_phantom_refs(on());
    assert_eq!(packets.len(), 1);
    assert_eq!(packets[0].kind(), ReferenceType::Phantom);
    assert_eq!(packets[0].list_index(), 0);
    assert_eq!(packets[0].head(), phantom_moves);
    packets[0].do_work(&mut lists, &mut heap, &mut pending, false);
    assert_eq!(heap.load_referent(phantom_stays), Some(stays));
    assert_eq!(heap.load_referent(phantom_moves), Some(moved));
    assert_eq!(heap.load_discovered(phantom_stays), None);
    assert_eq!(heap.load_discovered(phantom_moves), None);
    assert_eq!(pending.head(), None);
    assert_eq!(pending_members(&heap, &pending), Vec::<ObjectReference>::new());
}

#[test]
fn soft_references_are_retained_unless_emergency() {
    let mut heap = Heap::new();
    let mut lists = DiscoveredLists::new(1);
    let t = object(&mut heap, true);
    let s = discovered(&mut heap, &mut lists, 0, ReferenceType::Soft, t);
    let mut pending = PendingList::new();
    process_all(&mut lists, &mut heap, &mut pending, false);
    // The referent was not reached, but it is kept alive, and moved on the way.
    let moved = heap.get_forwarded_object(t).unwrap();
    assert_eq!(heap.load_referent(s), Some(moved));
    assert!(heap.is_reachable(moved));
    assert_eq!(heap.load_discovered(s), None);
    assert_eq!(pending.head(), None);

    // Next cycle, with memory short.
    let mut heap = Heap::new();
    let mut lists = DiscoveredLists::new(1);
    let t = object(&mut heap, true);
    let s = discovered(&mut heap, &mut lists, 0, ReferenceType::Soft, t);
    let mut pending = PendingList::new();
    process_all(&mut lists, &mut heap, &mut pending, true);
    assert_eq!(heap.load_referent(s), None);
    assert_eq!(heap.get_forwarded_object(t), None);
    assert!(!heap.is_reachable(t));
    assert_eq!(pending_members(&heap, &pending), vec![s]);
}

#[test]
fn weak_references_are_never_retained() {
    let mut heap = Heap::new();
    let mut lists = DiscoveredLists::new(1);
    let t = object(&mut heap, false);
    let w = discovered(&mut heap, &mut lists, 0, ReferenceType::Weak, t);
    let mut pending = PendingList::new();
    process_all(&mut lists, &mut heap, &mut pending, false);
    assert_eq!(heap.load_referent(w), None);
    assert_eq!(pending_members(&heap, &pending), vec![w]);
}

#[test]
fn final_references_keep_their_referent_until_resurrected() {
    let mut heap = Heap::new();
    let mut lists = DiscoveredLists::new(2);
    let t1 = object(&mut heap, true);
    let t2 = object(&mut heap, false);
    let live = object(&mut heap, false);
    let f1 = discovered(&mut heap, &mut lists, 1, ReferenceType::Final, t1);
    let f2 = discovered(&mut heap, &mut lists, 1, ReferenceType::Final, t2);
    let f3 = discovered(&mut heap, &mut lists, 1, ReferenceType::Final, live);
    heap.trace_object(live);
    let mut pending = PendingList::new();

    // Phase A.
    let packets = lists.process_soft_weak_final_refs(on());
    assert_eq!(packets.len(), 1);
    assert_eq!(packets[0].kind(), ReferenceType::Final);
    assert_eq!(packets[0].list_index(), 1);
    packets[0].do_work(&mut lists, &mut heap, &mut pending, false);
    assert_eq!(heap.load_referent(f1), Some(t1));
    assert_eq!(heap.load_referent(f2), Some(t2));
    assert_eq!(heap.load_referent(f3), Some(live));
    assert!(!heap.is_reachable(t1));
    assert!(!heap.is_reachable(t2));
    assert_eq!(pending.head(), None);
    // The survivors are the worker's list again, ending in a sentinel.
    assert_eq!(lists.get_by_rt_and_index(ReferenceType::Final, 1).head(), Some(f1));
    assert_eq!(heap.load_discovered(f1), Some(f2));
    assert_eq!(heap.load_discovered(f2), Some(f2));
    assert_eq!(heap.load_discovered(f3), None);

    // Phase B.
    let packets = lists.resurrect_final_refs(on());
    assert_eq!(packets.len(), 1);
    assert_eq!(packets[0].list_index(), 1);
    assert_eq!(packets[0].head(), f1);
    assert_eq!(lists.get_by_rt_and_index(ReferenceType::Final, 1).head(), None);
    packets[0].do_work(&mut lists, &mut heap, &mut pending);
    let moved = heap.get_forwarded_object(t1).unwrap();
    assert_eq!(heap.load_referent(f1), Some(moved));
    assert_eq!(heap.load_referent(f2), Some(t2));
    assert!(heap.is_reachable(moved));
    assert!(heap.is_reachable(t2));
    assert_eq!(pending_members(&heap, &pending), vec![f2, f1]);
    assert_eq!(lists.get_by_rt_and_index(ReferenceType::Final, 1).head(), None);
}

#[test]
fn final_list_with_no_survivor_is_left_empty() {
    let mut heap = Heap::new();
    let mut lists = DiscoveredLists::new(1);
    let live = object(&mut heap, false);
    let f = discovered(&mut heap, &mut lists, 0, ReferenceType::Final, live);
    heap.trace_object(live);
    let mut pending = PendingList::new();
    assert_eq!(process_all(&mut lists, &mut heap, &mut pending, false), 1);
    assert_eq!(lists.get_by_rt_and_index(ReferenceType::Final, 0).head(), None);
    assert_eq!(heap.load_discovered(f), None);
    assert!(lists.resurrect_final_refs(on()).is_empty());
}

#[test]
fn merge_keeps_what_was_pending() {
    let mut heap = Heap::new();
    let mut lists = DiscoveredLists::new(2);
    let mut pending = PendingList::new();
    // A first list leaves two references pending.
    let mut first = Vec::new();
    for _ in 0..2 {
        let t = object(&mut heap, false);
        first.push(discovered(&mut heap, &mut lists, 0, ReferenceType::Weak, t));
    }
    process_all(&mut lists, &mut heap, &mut pending, false);
    let before = pending_members(&heap, &pending);
    assert_eq!(before, first);
    let objects_before: Vec<OopDesc> = before.iter().map(|r| heap.get(*r)).collect();

    // A second list adds three in front of them.
    lists.enable_discover();
    let mut second = Vec::new();
    for _ in 0..3 {
        let t = object(&mut heap, false);
        second.push(discovered(&mut heap, &mut lists, 1, ReferenceType::Phantom, t));
    }
    let packets = lists.process_phantom_refs(on());
    assert_eq!(packets.len(), 1);
    packets[0].do_work(&mut lists, &mut heap, &mut pending, false);
    let after = pending_members(&heap, &pending);
    assert_eq!(after.len(), before.len() + 3);
    assert_eq!(&after[..3], &second[..]);
    assert_eq!(&after[3..], &before[..]);
    let objects_after: Vec<OopDesc> = before.iter().map(|r| heap.get(*r)).collect();
    assert_eq!(objects_after, objects_before);
}

#[test]
fn list_of_removals_merges_nothing() {
    let mut heap = Heap::new();
    let mut lists = DiscoveredLists::new(1);
    let mut pending = PendingList::new();
    let t0 = object(&mut heap, false);
    let w0 = discovered(&mut heap, &mut lists, 0, ReferenceType::Weak, t0);
    process_all(&mut lists, &mut heap, &mut pending, false);
    assert_eq!(pending.head(), Some(w0));
    lists.enable_discover();
    let t = object(&mut heap, false);
    let w = discovered(&mut heap, &mut lists, 0, ReferenceType::Weak, t);
    heap.trace_object(t);
    process_all(&mut lists, &mut heap, &mut pending, false);
    assert_eq!(pending.head(), Some(w0));
    assert_eq!(pending_members(&heap, &pending), vec![w0]);
    assert_eq!(heap.load_referent(w), Some(t));
}

#[test]
fn empty_lists_give_no_work() {
    let mut lists = DiscoveredLists::new(4);
    assert!(lists.process_soft_weak_final_refs(on()).is_empty());
    assert!(lists.resurrect_final_refs(on()).is_empty());
    assert!(lists.process_phantom_refs(on()).is_empty());
    lists.reconsider_soft_refs();
}

#[test]
fn units_are_made_per_list_in_kind_and_worker_order() {
    let mut heap = Heap::new();
    let mut lists = DiscoveredLists::new(3);
    let t = object(&mut heap, false);
    let f2 = discovered(&mut heap, &mut lists, 2, ReferenceType::Final, t);
    let w2 = discovered(&mut heap, &mut lists, 2, ReferenceType::Weak, t);
    let w0 = discovered(&mut heap, &mut lists, 0, ReferenceType::Weak, t);
    let s1 = discovered(&mut heap, &mut lists, 1, ReferenceType::Soft, t);
    let phantom_stays = discovered(&mut heap, &mut lists, 1, ReferenceType::Phantom, t);
    let packets = lists.process_soft_weak_final_refs(on());
    let seen: Vec<(ReferenceType, usize, ObjectReference)> =
        packets.iter().map(|p| (p.kind(), p.list_index(), p.head())).collect();
    assert_eq!(
        seen,
        vec![
            (ReferenceType::Soft, 1, s1),
            (ReferenceType::Weak, 0, w0),
            (ReferenceType::Weak, 2, w2),
            (ReferenceType::Final, 2, f2),
        ]
    );
    // Soft and weak lists are emptied at once, final lists are not, and
    // phantom lists wait for their own turn.
    assert_eq!(lists.get_by_rt_and_index(ReferenceType::Soft, 1).head(), None);
    assert_eq!(lists.get_by_rt_and_index(ReferenceType::Weak, 0).head(), None);
    assert_eq!(lists.get_by_rt_and_index(ReferenceType::Weak, 2).head(), None);
    assert_eq!(lists.get_by_rt_and_index(ReferenceType::Final, 2).head(), Some(f2));
    assert_eq!(lists.get_by_rt_and_index(ReferenceType::Phantom, 1).head(), Some(phantom_stays));
}

#[test]
fn switched_off_kinds_get_no_units() {
    let mut heap = Heap::new();
    let mut lists = DiscoveredLists::new(1);
    let t = object(&mut heap, false);
    let f = discovered(&mut heap, &mut lists, 0, ReferenceType::Final, t);
    let w = discovered(&mut heap, &mut lists, 0, ReferenceType::Weak, t);
    let packets = lists.process_soft_weak_final_refs(ReferenceOptions {
        no_reference_types: true,
        no_finalizer: false,
    });
    assert_eq!(packets.len(), 1);
    assert_eq!(packets[0].kind(), ReferenceType::Final);
    assert_eq!(lists.get_by_rt_and_index(ReferenceType::Weak, 0).head(), Some(w));
    let packets = lists.process_soft_weak_final_refs(ReferenceOptions {
        no_reference_types: false,
        no_finalizer: true,
    });
    assert_eq!(packets.len(), 1);
    assert_eq!(packets[0].kind(), ReferenceType::Weak);
    assert_eq!(lists.get_by_rt_and_index(ReferenceType::Final, 0).head(), Some(f));
    assert!(!lists.allow_discover());
}

#[test]
fn resuming_mutators_opens_the_gate() {
    let mut heap = Heap::new();
    let mut lists = DiscoveredLists::new(1);
    let mut pending = PendingList::new();
    VMCollection::process_weak_refs(&mut lists, &mut heap, &mut pending, on(), false);
    assert!(!lists.allow_discover());
    VMCollection::resume_mutators(&lists);
    assert!(lists.allow_discover());
}

#[test]
fn a_reference_can_be_discovered_again_in_the_next_cycle() {
    let mut heap = Heap::new();
    let mut lists = DiscoveredLists::new(1);
    let t = object(&mut heap, false);
    let w = discovered(&mut heap, &mut lists, 0, ReferenceType::Weak, t);
    heap.trace_object(t);
    let mut pending = PendingList::new();
    process_all(&mut lists, &mut heap, &mut pending, false);
    assert_eq!(heap.load_discovered(w), None);
    lists.enable_discover();
    // The referent has to look unreached for a new discovery; a new one does.
    let t2 = object(&mut heap, false);
    heap.store_referent(w, Some(t2));
    assert!(lists.discover(&mut heap, 0, w, t2, ReferenceType::Weak));
    assert_eq!(heap.load_discovered(w), Some(w));
}

#[test]
fn visit_classifies_one_reference() {
    let mut heap = Heap::new();
    let dead = object(&mut heap, false);
    let live = object(&mut heap, true);
    let moved = heap.trace_object(live);
    let mut make = |heap: &mut Heap, referent: Option<ObjectReference>| {
        let r = heap.allocate(OopDesc::reference(ReferenceType::Weak, referent, false));
        heap.trace_object(r);
        r
    };
    let a = make(&mut heap, None);
    let b = make(&mut heap, Some(live));
    let c = make(&mut heap, Some(dead));
    let d = make(&mut heap, Some(dead));
    let e = make(&mut heap, Some(dead));
    let weak = Visit::Classify { rt: ReferenceType::Weak, retain: false };
    let fin = Visit::Classify { rt: ReferenceType::Final, retain: false };
    assert_eq!(visit(&mut heap, a, weak), DiscoveredListIterationResult::Remove);
    assert_eq!(heap.load_referent(a), None);
    assert_eq!(visit(&mut heap, b, weak), DiscoveredListIterationResult::Remove);
    assert_eq!(heap.load_referent(b), Some(moved));
    assert_eq!(visit(&mut heap, c, weak), DiscoveredListIterationResult::Enqueue(c));
    assert_eq!(heap.load_referent(c), None);
    assert_eq!(visit(&mut heap, d, fin), DiscoveredListIterationResult::Enqueue(d));
    assert_eq!(heap.load_referent(d), Some(dead));
    assert!(!heap.is_reachable(dead));
    assert_eq!(visit(&mut heap, e, Visit::Resurrect), DiscoveredListIterationResult::Enqueue(e));
    assert_eq!(heap.load_referent(e), Some(dead));
    assert!(heap.is_reachable(dead));
}

#[test]
fn taking_the_pending_list_leaves_it_empty() {
    let mut heap = Heap::new();
    let mut lists = DiscoveredLists::new(1);
    let t = object(&mut heap, false);
    let w = discovered(&mut heap, &mut lists, 0, ReferenceType::Weak, t);
    let mut pending = PendingList::new();
    process_all(&mut lists, &mut heap, &mut pending, false);
    assert_eq!(pending.take(), Some(w));
    assert_eq!(pending.head(), None);
    assert_eq!(pending.take(), None);
}

#[test]
fn links_left_stale_by_a_move_are_followed() {
    let mut heap = Heap::new();
    let mut lists = DiscoveredLists::new(1);
    let a = object(&mut heap, false);
    let b = object(&mut heap, false);
    // A reference that the trace moves when it first reaches it.
    let old = heap.allocate(OopDesc::reference(ReferenceType::Weak, Some(a), true));
    let new = heap.trace_object(old);
    assert!(new != old);
    assert!(lists.discover(&mut heap, 0, new, a, ReferenceType::Weak));
    let w = discovered(&mut heap, &mut lists, 0, ReferenceType::Weak, b);
    // Both links to it still name the address it has left.
    heap.store_discovered(w, Some(old));
    heap.store_discovered(new, Some(old));

    let mut pending = PendingList::new();
    assert_eq!(process_all(&mut lists, &mut heap, &mut pending, false), 1);
    assert_eq!(pending_members(&heap, &pending), vec![new, w]);
    assert_eq!(heap.load_referent(new), None);
    assert_eq!(heap.load_referent(w), None);
    assert_eq!(heap.load_discovered(w), None);
    // What stayed behind at the old address is not touched.
    assert_eq!(heap.load_referent(old), Some(a));
    assert_eq!(heap.get_forwarded_object(old), Some(new));
}

#[test]
fn referent_in_the_same_list_is_left_in_place() {
    let mut heap = Heap::new();
    let mut lists = DiscoveredLists::new(1);
    let t = object(&mut heap, false);
    // The second reference refers to the first, which is reached and so stays.
    let inner = discovered(&mut heap, &mut lists, 0, ReferenceType::Weak, t);
    let outer = heap.allocate(OopDesc::reference(ReferenceType::Weak, Some(inner), false));
    heap.trace_object(outer);
    assert!(lists.discover_when(true, &mut heap, 0, outer, inner, ReferenceType::Weak));
    let mut pending = PendingList::new();
    process_all(&mut lists, &mut heap, &mut pending, false);
    assert_eq!(heap.load_referent(outer), Some(inner));
    assert_eq!(heap.load_referent(inner), None);
    assert_eq!(pending_members(&heap, &pending), vec![inner]);
    assert_eq!(heap.load_discovered(outer), None);
}

#[test]
fn a_whole_cycle_runs_phase_by_phase() {
    let mut heap = Heap::new();
    let mut lists = DiscoveredLists::new(2);
    let mut pending = PendingList::new();
    let dead = object(&mut heap, false);
    let kept = object(&mut heap, true);
    let live = object(&mut heap, false);
    let s = discovered(&mut heap, &mut lists, 0, ReferenceType::Soft, kept);
    let w_dead = discovered(&mut heap, &mut lists, 0, ReferenceType::Weak, dead);
    let w_live = discovered(&mut heap, &mut lists, 1, ReferenceType::Weak, live);
    let f = discovered(&mut heap, &mut lists, 1, ReferenceType::Final, dead);
    let p = discovered(&mut heap, &mut lists, 0, ReferenceType::Phantom, dead);
    heap.trace_object(live);

    VMCollection::process_weak_refs(&mut lists, &mut heap, &mut pending, on(), false);
    assert!(!lists.allow_discover());
    let moved = heap.get_forwarded_object(kept).unwrap();
    assert_eq!(heap.load_referent(s), Some(moved));
    assert_eq!(heap.load_referent(w_dead), None);
    assert_eq!(heap.load_referent(w_live), Some(live));
    assert_eq!(heap.load_referent(f), Some(dead));
    assert_eq!(pending_members(&heap, &pending), vec![w_dead]);
    assert_eq!(lists.get_by_rt_and_index(ReferenceType::Final, 1).head(), Some(f));
    assert_eq!(lists.get_by_rt_and_index(ReferenceType::Phantom, 0).head(), Some(p));
    for i in 0..2 {
        assert!(lists.get_by_rt_and_index(ReferenceType::Soft, i).is_empty());
        assert!(lists.get_by_rt_and_index(ReferenceType::Weak, i).is_empty());
    }

    VMCollection::process_final_refs(&mut lists, &mut heap, &mut pending, on());
    // The finalizable object is alive again, so the phantom reference to it survives.
    assert!(heap.is_reachable(dead));
    assert_eq!(heap.load_referent(f), Some(dead));
    assert_eq!(pending_members(&heap, &pending), vec![f, w_dead]);
    assert!(lists.get_by_rt_and_index(ReferenceType::Final, 1).is_empty());

    VMCollection::process_phantom_refs(&mut lists, &mut heap, &mut pending, on(), false);
    assert_eq!(heap.load_referent(p), Some(dead));
    assert_eq!(heap.load_discovered(p), None);
    assert!(lists.get_by_rt_and_index(ReferenceType::Phantom, 0).is_empty());
    assert_eq!(pending_members(&heap, &pending), vec![f, w_dead]);

    VMCollection::resume_mutators(&lists);
    assert!(lists.allow_discover());
}

#[test]
fn phantom_phase_clears_what_nothing_keeps_alive() {
    let mut heap = Heap::new();
    let mut lists = DiscoveredLists::new(1);
    let mut pending = PendingList::new();
    let dead = object(&mut heap, false);
    let p = discovered(&mut heap, &mut lists, 0, ReferenceType::Phantom, dead);
    VMCollection::process_weak_refs(&mut lists, &mut heap, &mut pending, on(), false);
    assert_eq!(lists.get_by_rt_and_index(ReferenceType::Phantom, 0).head(), Some(p));
    VMCollection::process_phantom_refs(&mut lists, &mut heap, &mut pending, on(), true);
    assert_eq!(heap.load_referent(p), None);
    assert_eq!(pending_members(&heap, &pending), vec![p]);
}

#[test]
fn switched_off_kinds_are_left_alone_by_the_phases() {
    let mut heap = Heap::new();
    let mut lists = DiscoveredLists::new(1);
    let mut pending = PendingList::new();
    let t = object(&mut heap, false);
    let f = discovered(&mut heap, &mut lists, 0, ReferenceType::Final, t);
    let w = discovered(&mut heap, &mut lists, 0, ReferenceType::Weak, t);
    let off = ReferenceOptions { no_reference_types: true, no_finalizer: true };
    VMCollection::process_weak_refs(&mut lists, &mut heap, &mut pending, off, false);
    assert_eq!(lists.get_by_rt_and_index(ReferenceType::Final, 0).head(), Some(f));
    assert_eq!(lists.get_by_rt_and_index(ReferenceType::Weak, 0).head(), Some(w));
    assert_eq!(heap.load_referent(f), Some(t));
    assert_eq!(heap.load_referent(w), Some(t));
    assert_eq!(heap.load_discovered(f), Some(f));
    assert_eq!(heap.load_discovered(w), Some(w));
    assert_eq!(pending.head(), None);
    assert!(!lists.allow_discover());
}

#[test]
fn units_run_one_after_the_other() {
    let mut heap = Heap::new();
    let mut lists = DiscoveredLists::new(2);
    let mut pending = PendingList::new();
    let t = object(&mut heap, false);
    let w0 = discovered(&mut heap, &mut lists, 0, ReferenceType::Weak, t);
    let w1 = discovered(&mut heap, &mut lists, 1, ReferenceType::Weak, t);
    let f1 = discovered(&mut heap, &mut lists, 1, ReferenceType::Final, t);
    let units = lists.process_soft_weak_final_refs(on());
    assert_eq!(units.len(), 3);
    run_units(&units, &mut lists, &mut heap, &mut pending, false);
    assert_eq!(pending_members(&heap, &pending), vec![w1, w0]);
    assert_eq!(heap.load_referent(w0), None);
    assert_eq!(heap.load_referent(w1), None);
    assert_eq!(heap.load_referent(f1), Some(t));
    let units = lists.resurrect_final_refs(on());
    assert_eq!(units.len(), 1);
    run_resurrections(&units, &mut lists, &mut heap, &mut pending);
    assert_eq!(pending_members(&heap, &pending), vec![f1, w1, w0]);
    assert!(heap.is_reachable(t));
    run_units(&Vec::new(), &mut lists, &mut heap, &mut pending, false);
    assert_eq!(pending_members(&heap, &pending), vec![f1, w1, w0]);
}

#[test]
fn resurrected_members_queue_up_last_unit_first() {
    let mut heap = Heap::new();
    let mut lists = DiscoveredLists::new(2);
    let mut pending = PendingList::new();
    let t = object(&mut heap, true);
    let a0 = discovered(&mut heap, &mut lists, 0, ReferenceType::Final, t);
    let b0 = discovered(&mut heap, &mut lists, 0, ReferenceType::Final, t);
    let a1 = discovered(&mut heap, &mut lists, 1, ReferenceType::Final, t);
    let b1 = discovered(&mut heap, &mut lists, 1, ReferenceType::Final, t);
    let old = pending_members(&heap, &pending);
    assert!(old.is_empty());
    let units = lists.resurrect_final_refs(on());
    assert_eq!(units.len(), 2);
    assert_eq!(units[0].head(), b0);
    assert_eq!(units[1].head(), b1);
    run_resurrections(&units, &mut lists, &mut heap, &mut pending);
    // Each list is walked from its head, and what is walked last comes first.
    assert_eq!(pending_members(&heap, &pending), vec![a1, b1, a0, b0]);
    let moved = heap.get_forwarded_object(t).unwrap();
    for r in [a0, b0, a1, b1] {
        assert_eq!(heap.load_referent(r), Some(moved));
    }
    assert!(lists.get_by_rt_and_index(ReferenceType::Final, 0).is_empty());
    assert!(lists.get_by_rt_and_index(ReferenceType::Final, 1).is_empty());
}

#[test]
fn a_retained_referent_saves_the_weak_reference_that_comes_after() {
    let mut heap = Heap::new();
    let mut lists = DiscoveredLists::new(1);
    let mut pending = PendingList::new();
    let t = object(&mut heap, true);
    let s = discovered(&mut heap, &mut lists, 0, ReferenceType::Soft, t);
    let w = discovered(&mut heap, &mut lists, 0, ReferenceType::Weak, t);
    let units = lists.process_soft_weak_final_refs(on());
    assert_eq!(units.len(), 2);
    run_units(&units, &mut lists, &mut heap, &mut pending, false);
    // The soft unit runs first and keeps the referent alive, so the weak
    // reference finds it reached.
    let moved = heap.get_forwarded_object(t).unwrap();
    assert_eq!(heap.load_referent(s), Some(moved));
    assert_eq!(heap.load_referent(w), Some(moved));
    assert_eq!(heap.load_discovered(w), None);
    assert_eq!(pending.head(), None);
}

#[test]
fn in_an_emergency_units_decide_by_the_heap_they_started_from() {
    let mut heap = Heap::new();
    let mut lists = DiscoveredLists::new(2);
    let mut pending = PendingList::new();
    let t = object(&mut heap, true);
    let live = object(&mut heap, false);
    heap.trace_object(live);
    let s = discovered(&mut heap, &mut lists, 0, ReferenceType::Soft, t);
    let w = discovered(&mut heap, &mut lists, 0, ReferenceType::Weak, t);
    let v = discovered(&mut heap, &mut lists, 1, ReferenceType::Weak, live);
    let f = discovered(&mut heap, &mut lists, 1, ReferenceType::Final, t);
    let len = heap.len();
    let units = lists.process_soft_weak_final_refs(on());
    run_units(&units, &mut lists, &mut heap, &mut pending, true);
    assert_eq!(pending_members(&heap, &pending), vec![w, s]);
    assert_eq!(heap.load_referent(s), None);
    assert_eq!(heap.load_referent(w), None);
    assert_eq!(heap.load_referent(v), Some(live));
    assert_eq!(heap.load_referent(f), Some(t));
    assert_eq!(lists.get_by_rt_and_index(ReferenceType::Final, 1).head(), Some(f));
    // Nothing was traced: no object was marked or moved.
    assert_eq!(heap.len(), len);
    assert!(!heap.is_reachable(t));
}
