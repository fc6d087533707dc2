use refglue::abi::{KlassID, ObjectReference, OopDesc, ReferenceType};
use refglue::heap::Heap;
use refglue::reference_glue::{DiscoveredLists, ReferenceOptions};

fn object(heap: &mut Heap) -> ObjectReference {
    heap.allocate(OopDesc::plain(KlassID::Instance, false))
}

fn reached_reference(heap: &mut Heap, rt: ReferenceType, referent: ObjectReference) -> ObjectReference {
    let r = heap.allocate(OopDesc::reference(rt, Some(referent), false));
    assert_eq!(heap.trace_object(r), r);
    r
}

fn on() -> ReferenceOptions {
    ReferenceOptions { no_reference_types: false, no_finalizer: false }
}

#[test]
fn new_registry_is_empty_and_open() {
    let lists = DiscoveredLists::new(3);
    assert_eq!(lists.num_workers(), 3);
    assert!(lists.allow_discover());
    for rt in [ReferenceType::Soft, ReferenceType::Weak, ReferenceType::Final, ReferenceType::Phantom] {
        for i in 0..3 {
            let list = lists.get_by_rt_and_index(rt, i);
            assert!(list.is_empty());
            assert_eq!(list.head(), None);
            assert_eq!(list.kind(), rt);
        }
    }
}

#[test]
fn first_discovery_links_the_reference_to_itself() {
    let mut heap = Heap::new();
    let a = object(&mut heap);
    let w = reached_reference(&mut heap, ReferenceType::Weak, a);
    let mut lists = DiscoveredLists::new(2);
    assert!(!lists.is_discovered(&heap, w));
    assert!(lists.discover(&mut heap, 1, w, a, ReferenceType::Weak));
    assert!(lists.is_discovered(&heap, w));
    assert_eq!(heap.load_discovered(w), Some(w));
    assert_eq!(lists.get(ReferenceType::Weak, Some(1)).head(), Some(w));
    assert_eq!(lists.get_by_rt_and_index(ReferenceType::Weak, 0).head(), None);
    assert_eq!(lists.get_by_rt_and_index(ReferenceType::Soft, 1).head(), None);
}

#[test]
fn later_discovery_links_to_the_old_head() {
    let mut heap = Heap::new();
    let a = object(&mut heap);
    let b = object(&mut heap);
    let w1 = reached_reference(&mut heap, ReferenceType::Weak, a);
    let w2 = reached_reference(&mut heap, ReferenceType::Weak, b);
    let mut lists = DiscoveredLists::new(1);
    assert!(lists.discover(&mut heap, 0, w1, a, ReferenceType::Weak));
    assert!(lists.discover(&mut heap, 0, w2, b, ReferenceType::Weak));
    assert_eq!(lists.get_by_rt_and_index(ReferenceType::Weak, 0).head(), Some(w2));
    assert_eq!(heap.load_discovered(w2), Some(w1));
    assert_eq!(heap.load_discovered(w1), Some(w1));
}

#[test]
fn a_reference_is_discovered_only_once() {
    let mut heap = Heap::new();
    let a = object(&mut heap);
    let b = object(&mut heap);
    let w1 = reached_reference(&mut heap, ReferenceType::Weak, a);
    let w2 = reached_reference(&mut heap, ReferenceType::Weak, b);
    let mut lists = DiscoveredLists::new(2);
    assert!(lists.discover(&mut heap, 0, w1, a, ReferenceType::Weak));
    assert!(!lists.discover(&mut heap, 0, w1, a, ReferenceType::Weak));
    assert!(lists.discover(&mut heap, 0, w2, b, ReferenceType::Weak));
    // Neither the same worker nor another one gets it a second time.
    assert!(!lists.discover(&mut heap, 0, w1, a, ReferenceType::Weak));
    assert!(!lists.discover(&mut heap, 1, w1, a, ReferenceType::Weak));
    assert_eq!(heap.load_discovered(w1), Some(w1));
    assert_eq!(lists.get_by_rt_and_index(ReferenceType::Weak, 0).head(), Some(w2));
    assert_eq!(lists.get_by_rt_and_index(ReferenceType::Weak, 1).head(), None);
}

#[test]
fn walk_from_head_ends_at_the_sentinel_after_len_members() {
    let mut heap = Heap::new();
    let mut lists = DiscoveredLists::new(1);
    let mut refs = Vec::new();
    for _ in 0..5 {
        let a = object(&mut heap);
        let w = reached_reference(&mut heap, ReferenceType::Phantom, a);
        assert!(lists.discover(&mut heap, 0, w, a, ReferenceType::Phantom));
        refs.push(w);
    }
    let mut at = lists.get_by_rt_and_index(ReferenceType::Phantom, 0).head().unwrap();
    let mut visited = 1;
    while heap.load_discovered(at) != Some(at) {
        at = heap.load_discovered(at).unwrap();
        visited += 1;
        assert!(visited <= 5);
    }
    assert_eq!(visited, 5);
    assert_eq!(at, refs[0]);
}

#[test]
fn gate_closed_discover_returns_false_and_changes_nothing() {
    let mut heap = Heap::new();
    let a = object(&mut heap);
    let w = reached_reference(&mut heap, ReferenceType::Weak, a);
    let mut lists = DiscoveredLists::new(1);
    let packets = lists.process_soft_weak_final_refs(on());
    assert!(packets.is_empty());
    assert!(!lists.allow_discover());
    let before = heap.get(w);
    assert!(!lists.discover(&mut heap, 0, w, a, ReferenceType::Weak));
    assert_eq!(heap.get(w), before);
    assert_eq!(heap.load_discovered(w), None);
    assert_eq!(lists.get_by_rt_and_index(ReferenceType::Weak, 0).head(), None);
    assert_eq!(heap.len(), 2);
}

#[test]
fn gate_opens_again_when_discovery_is_enabled() {
    let mut heap = Heap::new();
    let a = object(&mut heap);
    let w = reached_reference(&mut heap, ReferenceType::Weak, a);
    let mut lists = DiscoveredLists::new(1);
    let _ = lists.process_soft_weak_final_refs(on());
    assert!(!lists.discover(&mut heap, 0, w, a, ReferenceType::Weak));
    lists.enable_discover();
    assert!(lists.allow_discover());
    assert!(lists.discover(&mut heap, 0, w, a, ReferenceType::Weak));
    assert_eq!(lists.get_by_rt_and_index(ReferenceType::Weak, 0).head(), Some(w));
}

#[test]
fn discover_when_follows_what_the_gate_said() {
    let mut heap = Heap::new();
    let a = object(&mut heap);
    let w = reached_reference(&mut heap, ReferenceType::Soft, a);
    let mut lists = DiscoveredLists::new(1);
    assert!(!lists.discover_when(false, &mut heap, 0, w, a, ReferenceType::Soft));
    assert_eq!(heap.load_discovered(w), None);
    assert!(lists.discover_when(true, &mut heap, 0, w, a, ReferenceType::Soft));
    assert_eq!(heap.load_discovered(w), Some(w));
    assert!(!lists.discover_when(true, &mut heap, 0, w, a, ReferenceType::Soft));
}

#[test]
fn list_add_reports_whether_it_inserted() {
    let mut heap = Heap::new();
    let a = object(&mut heap);
    let w = reached_reference(&mut heap, ReferenceType::Weak, a);
    let mut list = refglue::reference_glue::DiscoveredList::new(ReferenceType::Weak);
    assert!(list.add(&mut heap, w, a));
    assert_eq!(list.head(), Some(w));
    assert!(!list.add(&mut heap, w, a));
    assert_eq!(list.head(), Some(w));
    assert_eq!(heap.load_discovered(w), Some(w));
}

#[test]
fn each_kind_and_worker_has_its_own_list() {
    let mut heap = Heap::new();
    let mut lists = DiscoveredLists::new(2);
    let kinds = [ReferenceType::Soft, ReferenceType::Weak, ReferenceType::Final, ReferenceType::Phantom];
    let mut made = Vec::new();
    for (k, rt) in kinds.iter().enumerate() {
        let a = object(&mut heap);
        let r = reached_reference(&mut heap, *rt, a);
        assert!(lists.discover(&mut heap, k % 2, r, a, *rt));
        made.push((r, *rt, k % 2));
    }
    for (r, rt, worker) in made {
        assert_eq!(lists.get_by_rt_and_index(rt, worker).head(), Some(r));
        assert_eq!(lists.get_by_rt_and_index(rt, 1 - worker).head(), None);
        assert_eq!(heap.load_discovered(r), Some(r));
    }
}
