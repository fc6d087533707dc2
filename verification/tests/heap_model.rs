use refglue::abi::{Field, InstanceRefKlass, KlassID, ObjectReference, OopDesc, ReferenceType, Slot};
use refglue::heap::Heap;
use refglue::object_scanning::{is_obj_array, is_val_array, scan_object, SlotVisitor};
use refglue::reference_glue::{hand_over, PendingList};
use refglue::reference_glue::{
    get_next_reference, get_referent, set_next_reference, set_referent, DiscoveredLists,
    ReferenceOptions, VMReferenceGlue,
};
use refglue::scanning::VMScanning;

fn on() -> ReferenceOptions {
    ReferenceOptions { no_reference_types: false, no_finalizer: false }
}

#[test]
fn allocation_hands_out_consecutive_addresses() {
    let mut heap = Heap::new();
    assert_eq!(heap.len(), 0);
    let a = heap.allocate(OopDesc::plain(KlassID::Instance, false));
    let b = heap.allocate(OopDesc::reference(ReferenceType::Weak, Some(a), true));
    assert_eq!(a, ObjectReference { addr: 0 });
    assert_eq!(b, ObjectReference { addr: 1 });
    assert_eq!(heap.len(), 2);
    assert!(heap.is_object(b));
    assert!(!heap.is_object(ObjectReference { addr: 2 }));
    let object = heap.get(b);
    assert_eq!(object.klass, KlassID::InstanceRef);
    assert_eq!(object.reference_type, ReferenceType::Weak);
    assert_eq!(object.referent, Some(a));
    assert_eq!(object.discovered, None);
    assert_eq!(object.forwarding, None);
    assert!(!object.marked);
    assert!(object.relocates);
}

#[test]
fn tracing_marks_in_place() {
    let mut heap = Heap::new();
    let a = heap.allocate(OopDesc::plain(KlassID::Instance, false));
    assert!(!heap.is_reachable(a));
    assert_eq!(heap.trace_object(a), a);
    assert!(heap.is_reachable(a));
    assert_eq!(heap.get_forwarded_object(a), None);
    assert_eq!(heap.trace_object(a), a);
    assert_eq!(heap.len(), 1);
}

#[test]
fn tracing_evacuates_and_forwards() {
    let mut heap = Heap::new();
    let t = heap.allocate(OopDesc::plain(KlassID::Instance, false));
    let a = heap.allocate(OopDesc::reference(ReferenceType::Soft, Some(t), true));
    let to = heap.trace_object(a);
    assert_eq!(to, ObjectReference { addr: 2 });
    assert_eq!(heap.len(), 3);
    assert_eq!(heap.get_forwarded_object(a), Some(to));
    assert!(heap.is_reachable(a));
    assert!(heap.is_reachable(to));
    assert_eq!(heap.get_forwarded_object(to), None);
    let copy = heap.get(to);
    assert_eq!(copy.referent, Some(t));
    assert_eq!(copy.reference_type, ReferenceType::Soft);
    assert!(copy.marked);
    assert!(!copy.relocates);
    // A second trace finds the forwarding pointer and moves nothing.
    assert_eq!(heap.trace_object(a), to);
    assert_eq!(heap.trace_object(to), to);
    assert_eq!(heap.len(), 3);
}

#[test]
fn reference_fields_are_read_and_written() {
    let mut heap = Heap::new();
    let a = heap.allocate(OopDesc::plain(KlassID::Instance, false));
    let b = heap.allocate(OopDesc::plain(KlassID::Instance, false));
    let w = heap.allocate(OopDesc::reference(ReferenceType::Weak, Some(a), false));
    assert_eq!(get_referent(&heap, w), Some(a));
    assert_eq!(get_next_reference(&heap, w), None);
    set_referent(&mut heap, w, Some(b));
    set_next_reference(&mut heap, w, Some(w));
    assert_eq!(get_referent(&heap, w), Some(b));
    assert_eq!(get_next_reference(&heap, w), Some(w));
    set_referent(&mut heap, w, None);
    set_next_reference(&mut heap, w, None);
    assert_eq!(heap.load_referent(w), None);
    assert_eq!(heap.load_discovered(w), None);
    assert_eq!(heap.get(a), OopDesc::plain(KlassID::Instance, false));
}

#[test]
fn compare_exchange_swaps_only_on_a_match() {
    let mut heap = Heap::new();
    let a = heap.allocate(OopDesc::plain(KlassID::Instance, false));
    let w = heap.allocate(OopDesc::reference(ReferenceType::Weak, Some(a), false));
    assert_eq!(heap.compare_exchange_discovered(w, None, Some(w)), Ok(None));
    assert_eq!(heap.load_discovered(w), Some(w));
    assert_eq!(heap.compare_exchange_discovered(w, None, Some(a)), Err(Some(w)));
    assert_eq!(heap.load_discovered(w), Some(w));
    assert_eq!(heap.compare_exchange_discovered(w, Some(w), None), Ok(Some(w)));
    assert_eq!(heap.load_discovered(w), None);
}

#[test]
fn array_classes_are_told_apart() {
    let mut heap = Heap::new();
    let i = heap.allocate(OopDesc::plain(KlassID::Instance, false));
    let o = heap.allocate(OopDesc::plain(KlassID::ObjArray, false));
    let t = heap.allocate(OopDesc::plain(KlassID::TypeArray, false));
    assert!(!is_obj_array(&heap, i));
    assert!(is_obj_array(&heap, o));
    assert!(!is_obj_array(&heap, t));
    assert!(!is_val_array(&heap, i));
    assert!(!is_val_array(&heap, o));
    assert!(is_val_array(&heap, t));
    assert!(VMScanning::is_obj_array(&heap, o));
    assert!(VMScanning::is_val_array(&heap, t));
    assert!(!VMScanning::is_val_array(&heap, o));
}

#[test]
fn should_discover_refs_follows_the_switches() {
    let off_refs = ReferenceOptions { no_reference_types: true, no_finalizer: false };
    let off_final = ReferenceOptions { no_reference_types: false, no_finalizer: true };
    for rt in [ReferenceType::Soft, ReferenceType::Weak, ReferenceType::Phantom, ReferenceType::Other] {
        assert!(InstanceRefKlass::should_discover_refs(rt, false, on()));
        assert!(!InstanceRefKlass::should_discover_refs(rt, true, on()));
        assert!(!InstanceRefKlass::should_discover_refs(rt, false, off_refs));
        assert!(InstanceRefKlass::should_discover_refs(rt, false, off_final));
    }
    assert!(InstanceRefKlass::should_discover_refs(ReferenceType::Final, false, on()));
    assert!(!InstanceRefKlass::should_discover_refs(ReferenceType::Final, true, on()));
    assert!(InstanceRefKlass::should_discover_refs(ReferenceType::Final, false, off_refs));
    assert!(!InstanceRefKlass::should_discover_refs(ReferenceType::Final, false, off_final));
}

#[test]
fn strong_processing_visits_referent_then_link() {
    let mut visitor = SlotVisitor::new(true);
    let oop = ObjectReference { addr: 7 };
    InstanceRefKlass::process_ref_as_strong(oop, &mut visitor);
    assert_eq!(
        visitor.slots,
        vec![
            Slot { object: oop, field: Field::Referent },
            Slot { object: oop, field: Field::Discovered },
        ]
    );
    assert_eq!(InstanceRefKlass::referent_address(oop), Slot { object: oop, field: Field::Referent });
    assert_eq!(InstanceRefKlass::discovered_address(oop), Slot { object: oop, field: Field::Discovered });
}

#[test]
fn discover_reference_skips_empty_and_reached_referents() {
    let mut heap = Heap::new();
    let live = heap.allocate(OopDesc::plain(KlassID::Instance, false));
    heap.trace_object(live);
    let dead = heap.allocate(OopDesc::plain(KlassID::Instance, false));
    let empty = heap.allocate(OopDesc::reference(ReferenceType::Weak, None, false));
    let to_live = heap.allocate(OopDesc::reference(ReferenceType::Weak, Some(live), false));
    let to_dead = heap.allocate(OopDesc::reference(ReferenceType::Weak, Some(dead), false));
    for r in [empty, to_live, to_dead] {
        heap.trace_object(r);
    }
    let mut lists = DiscoveredLists::new(1);
    assert!(!InstanceRefKlass::discover_reference(&mut lists, &mut heap, 0, empty, ReferenceType::Weak));
    assert!(!InstanceRefKlass::discover_reference(&mut lists, &mut heap, 0, to_live, ReferenceType::Weak));
    assert_eq!(lists.get_by_rt_and_index(ReferenceType::Weak, 0).head(), None);
    assert!(InstanceRefKlass::discover_reference(&mut lists, &mut heap, 0, to_dead, ReferenceType::Weak));
    assert_eq!(lists.get_by_rt_and_index(ReferenceType::Weak, 0).head(), Some(to_dead));
    assert_eq!(heap.load_discovered(to_dead), Some(to_dead));
    // A reference that is in a list already is not discovered a second time,
    // whatever its kind, and nothing changes.
    let before = heap.get(to_dead);
    assert!(!InstanceRefKlass::discover_reference(&mut lists, &mut heap, 0, to_dead, ReferenceType::Weak));
    assert!(!InstanceRefKlass::discover_reference_when(true, &mut lists, &mut heap, 0, to_dead, ReferenceType::Weak));
    assert!(!InstanceRefKlass::discover_reference_when(false, &mut lists, &mut heap, 0, to_dead, ReferenceType::Weak));
    assert_eq!(heap.get(to_dead), before);
    assert_eq!(lists.get_by_rt_and_index(ReferenceType::Weak, 0).head(), Some(to_dead));
}

#[test]
fn a_final_reference_in_a_list_is_not_discovered_again() {
    let mut heap = Heap::new();
    let dead = heap.allocate(OopDesc::plain(KlassID::Instance, false));
    let f = heap.allocate(OopDesc::reference(ReferenceType::Final, Some(dead), false));
    heap.trace_object(f);
    let mut lists = DiscoveredLists::new(1);
    assert!(InstanceRefKlass::discover_reference(&mut lists, &mut heap, 0, f, ReferenceType::Final));
    assert!(!InstanceRefKlass::discover_reference(&mut lists, &mut heap, 0, f, ReferenceType::Final));
    assert_eq!(lists.get_by_rt_and_index(ReferenceType::Final, 0).head(), Some(f));
}

#[test]
fn scanning_discovers_or_falls_back_to_strong() {
    let mut heap = Heap::new();
    let dead = heap.allocate(OopDesc::plain(KlassID::Instance, false));
    let w = heap.allocate(OopDesc::reference(ReferenceType::Weak, Some(dead), false));
    let v = heap.allocate(OopDesc::reference(ReferenceType::Weak, Some(dead), false));
    heap.trace_object(w);
    heap.trace_object(v);
    let mut lists = DiscoveredLists::new(1);

    // Discovery wanted and possible: no slot is handed on.
    let mut visitor = SlotVisitor::new(true);
    scan_object(&mut lists, &mut heap, 0, w, &mut visitor, on());
    assert!(visitor.slots.is_empty());
    assert_eq!(lists.get_by_rt_and_index(ReferenceType::Weak, 0).head(), Some(w));

    // Discovery turned off by the trace: both fields are strong.
    let mut visitor = SlotVisitor::new(false);
    VMScanning::scan_object(&mut lists, &mut heap, 0, v, &mut visitor, on());
    assert_eq!(visitor.slots.len(), 2);
    assert_eq!(visitor.slots[0], Slot { object: v, field: Field::Referent });
    assert_eq!(visitor.slots[1], Slot { object: v, field: Field::Discovered });
    assert_eq!(heap.load_discovered(v), None);

    // Discovery wanted, but the discovery gate is closed: strong again.
    let _ = lists.process_soft_weak_final_refs(on());
    let mut visitor = SlotVisitor::new(true);
    scan_object(&mut lists, &mut heap, 0, v, &mut visitor, on());
    assert_eq!(visitor.slots.len(), 2);
    assert_eq!(heap.load_discovered(v), None);

    // An ordinary object has nothing for the reference machinery.
    heap.trace_object(dead);
    let mut visitor = SlotVisitor::new(true);
    scan_object(&mut lists, &mut heap, 0, dead, &mut visitor, on());
    assert!(visitor.slots.is_empty());
}

#[test]
fn glue_hooks_do_nothing() {
    let refs = vec![ObjectReference { addr: 1 }];
    VMReferenceGlue::enqueue_references(&refs);
    VMReferenceGlue::clear_referent(ObjectReference { addr: 1 });
    assert_eq!(refs, vec![ObjectReference { addr: 1 }]);
}

#[test]
fn slots_name_the_two_reference_fields() {
    let mut heap = Heap::new();
    let a = heap.allocate(OopDesc::plain(KlassID::Instance, false));
    let w = heap.allocate(OopDesc::reference(ReferenceType::Phantom, Some(a), false));
    let referent = InstanceRefKlass::referent_address(w);
    let link = refglue::reference_glue::get_next_reference_slot(w);
    assert_eq!(link, Slot { object: w, field: Field::Discovered });
    assert_eq!(heap.load(referent), Some(a));
    assert_eq!(heap.load(link), None);
    heap.store(link, Some(w));
    heap.store(referent, None);
    assert_eq!(heap.load_discovered(w), Some(w));
    assert_eq!(heap.load_referent(w), None);
    assert_eq!(heap.load(link), Some(w));
    assert_eq!(heap.load(referent), None);
}

#[test]
fn a_second_scan_of_a_discovered_reference_falls_back_to_strong() {
    let mut heap = Heap::new();
    let dead = heap.allocate(OopDesc::plain(KlassID::Instance, false));
    let mut lists = DiscoveredLists::new(2);
    for rt in [ReferenceType::Soft, ReferenceType::Weak, ReferenceType::Final, ReferenceType::Phantom] {
        let r = heap.allocate(OopDesc::reference(rt, Some(dead), false));
        heap.trace_object(r);
        let mut visitor = SlotVisitor::new(true);
        InstanceRefKlass::oop_iterate_when(true, &mut lists, &mut heap, 0, r, &mut visitor, on());
        assert!(visitor.slots.is_empty());
        assert_eq!(lists.get_by_rt_and_index(rt, 0).head(), Some(r));
        assert_eq!(heap.load_discovered(r), Some(r));
        // The same worker, then another one, come upon it again.
        for worker in [0, 1] {
            let mut visitor = SlotVisitor::new(true);
            InstanceRefKlass::oop_iterate_when(true, &mut lists, &mut heap, worker, r, &mut visitor, on());
            assert_eq!(
                visitor.slots,
                vec![
                    Slot { object: r, field: Field::Referent },
                    Slot { object: r, field: Field::Discovered },
                ]
            );
            assert_eq!(lists.get_by_rt_and_index(rt, 0).head(), Some(r));
            assert_eq!(lists.get_by_rt_and_index(rt, 1).head(), None);
            assert_eq!(heap.load_discovered(r), Some(r));
        }
    }
}

#[test]
fn scan_follows_what_the_gate_said() {
    let mut heap = Heap::new();
    let dead = heap.allocate(OopDesc::plain(KlassID::Instance, false));
    let first = heap.allocate(OopDesc::reference(ReferenceType::Weak, Some(dead), false));
    let second = heap.allocate(OopDesc::reference(ReferenceType::Weak, Some(dead), false));
    heap.trace_object(first);
    heap.trace_object(second);
    let mut lists = DiscoveredLists::new(1);
    let mut visitor = SlotVisitor::new(true);
    InstanceRefKlass::oop_iterate_when(false, &mut lists, &mut heap, 0, first, &mut visitor, on());
    assert_eq!(visitor.slots.len(), 2);
    assert_eq!(heap.load_discovered(first), None);
    assert_eq!(lists.get_by_rt_and_index(ReferenceType::Weak, 0).head(), None);
    let mut visitor = SlotVisitor::new(true);
    InstanceRefKlass::oop_iterate_when(true, &mut lists, &mut heap, 0, first, &mut visitor, on());
    assert!(visitor.slots.is_empty());
    assert_eq!(heap.load_discovered(first), Some(first));
    // The next discovery links to the old head.
    let mut visitor = SlotVisitor::new(true);
    InstanceRefKlass::oop_iterate_when(true, &mut lists, &mut heap, 0, second, &mut visitor, on());
    assert!(visitor.slots.is_empty());
    assert_eq!(heap.load_discovered(second), Some(first));
    assert_eq!(lists.get_by_rt_and_index(ReferenceType::Weak, 0).head(), Some(second));
    // Discovery not wanted: strong, even with the discovery gate open.
    let third = heap.allocate(OopDesc::reference(ReferenceType::Weak, Some(dead), false));
    heap.trace_object(third);
    let mut visitor = SlotVisitor::new(false);
    InstanceRefKlass::oop_iterate_when(true, &mut lists, &mut heap, 0, third, &mut visitor, on());
    assert_eq!(visitor.slots.len(), 2);
    assert_eq!(heap.load_discovered(third), None);
}

#[test]
fn hand_over_links_the_tail_to_what_the_runtime_had() {
    let mut heap = Heap::new();
    let mut lists = DiscoveredLists::new(1);
    let mut pending = PendingList::new();
    let theirs = heap.allocate(OopDesc::reference(ReferenceType::Weak, None, false));
    heap.trace_object(theirs);
    let mut ours = Vec::new();
    for _ in 0..3 {
        let t = heap.allocate(OopDesc::plain(KlassID::Instance, false));
        let w = heap.allocate(OopDesc::reference(ReferenceType::Weak, Some(t), false));
        heap.trace_object(w);
        assert!(lists.discover(&mut heap, 0, w, t, ReferenceType::Weak));
        ours.push(w);
    }
    let units = lists.process_soft_weak_final_refs(on());
    for unit in units.iter() {
        unit.do_work(&mut lists, &mut heap, &mut pending, false);
    }
    assert_eq!(pending.head(), Some(ours[0]));
    let head = hand_over(&mut pending, &mut heap, Some(theirs));
    assert_eq!(head, Some(ours[0]));
    assert_eq!(pending.head(), None);
    assert_eq!(heap.load_discovered(ours[0]), Some(ours[1]));
    assert_eq!(heap.load_discovered(ours[1]), Some(ours[2]));
    assert_eq!(heap.load_discovered(ours[2]), Some(theirs));
    assert_eq!(heap.load_discovered(theirs), None);
    // Nothing pending: nothing to hand over, and nothing written.
    let len = heap.len();
    assert_eq!(hand_over(&mut pending, &mut heap, Some(theirs)), None);
    assert_eq!(heap.len(), len);
    assert_eq!(heap.load_discovered(ours[2]), Some(theirs));
    // With nothing queued at the runtime the list ends where it ended.
    let t = heap.allocate(OopDesc::plain(KlassID::Instance, false));
    let w = heap.allocate(OopDesc::reference(ReferenceType::Phantom, Some(t), false));
    heap.trace_object(w);
    lists.enable_discover();
    assert!(lists.discover(&mut heap, 0, w, t, ReferenceType::Phantom));
    for unit in lists.process_phantom_refs(on()).iter() {
        unit.do_work(&mut lists, &mut heap, &mut pending, false);
    }
    assert_eq!(hand_over(&mut pending, &mut heap, None), Some(w));
    assert_eq!(heap.load_discovered(w), None);
}
