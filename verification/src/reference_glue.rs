//! Discovery of reference objects during tracing, and the lists that hold
//! them until the trace is over.
//!
//! A discovered list is threaded through the `discovered` field of its
//! members. The last member points to itself, so that a reference in a list
//! always has a non-empty `discovered` field and one in no list has an empty
//! one.

use vstd::prelude::*;
use crate::abi::{Field, InstanceRefKlass, ObjectReference, ReferenceType, Slot};
use crate::gate::DiscoveryGate;
use crate::heap::Heap;
use crate::processing::{
    enqueued, head_of, iterate_list, lemma_enqueued_members, lemma_evolves_trans,
    lemma_settles_stable, others_untouched, same_headers, within, Visit,
};

verus! {

/// Writes the `referent` field of the reference object `reff`.
pub fn set_referent(heap: &mut Heap, reff: ObjectReference, referent: Option<ObjectReference>)
    requires
        old(heap).wf(),
        old(heap).contains(reff),
        old(heap).admits(referent),
    ensures
        final(heap).wf(),
        final(heap)@ == old(heap)@.update(
            reff.addr as int,
            old(heap).object(reff).with_referent(referent),
        ),
        old(heap).evolves(final(heap), seq![reff]),
{
    let slot = InstanceRefKlass::referent_address(reff);
    heap.store(slot, referent)
}

/// Reads the `referent` field of the reference object `object`.
pub fn get_referent(heap: &Heap, object: ObjectReference) -> (referent: Option<ObjectReference>)
    requires
        heap.contains(object),
    ensures
        referent == heap.referent(object),
{
    heap.load(InstanceRefKlass::referent_address(object))
}

/// The place of the `discovered` field of the reference object `object`.
pub fn get_next_reference_slot(object: ObjectReference) -> (slot: Slot)
    ensures
        slot == (Slot { object, field: Field::Discovered }),
{
    InstanceRefKlass::discovered_address(object)
}

/// Reads the `discovered` field of the reference object `object`.
pub fn get_next_reference(heap: &Heap, object: ObjectReference) -> (next: Option<ObjectReference>)
    requires
        heap.contains(object),
    ensures
        next == heap.discovered(object),
{
    heap.load(get_next_reference_slot(object))
}

/// Writes the `discovered` field of the reference object `object`.
pub fn set_next_reference(heap: &mut Heap, object: ObjectReference, next: Option<ObjectReference>)
    requires
        old(heap).wf(),
        old(heap).contains(object),
        old(heap).admits(next),
    ensures
        final(heap).wf(),
        final(heap)@ == old(heap)@.update(
            object.addr as int,
            old(heap).object(object).with_discovered(next),
        ),
        old(heap).evolves(final(heap), seq![object]),
{
    let slot = get_next_reference_slot(object);
    heap.store(slot, next)
}

/// The `discovered` field of `from` leads to `to`, directly or through a
/// forwarding pointer.
pub open spec fn links_to(heap: &Heap, from: ObjectReference, to: ObjectReference) -> bool {
    &&& heap.discovered(from) is Some
    &&& heap.contains(heap.discovered(from).unwrap())
    &&& heap.resolve(heap.discovered(from).unwrap()) == to
}

/// The member that follows member `i` of a discovered list: the next one, or
/// the member itself at the end of the list.
pub open spec fn successor(nodes: Seq<ObjectReference>, i: int) -> ObjectReference {
    if i + 1 < nodes.len() {
        nodes[i + 1]
    } else {
        nodes[i]
    }
}

/// `nodes` are the members of the discovered list that starts at `head`, in
/// list order: settled objects, no two the same, each linked to the next and
/// the last to itself.
pub open spec fn is_discovered_chain(
    heap: &Heap,
    head: Option<ObjectReference>,
    nodes: Seq<ObjectReference>,
) -> bool {
    &&& nodes.no_duplicates()
    &&& forall|i: int| 0 <= i < nodes.len() ==> heap.settled(#[trigger] nodes[i])
    &&& match head {
        None => nodes.len() == 0,
        Some(h) => nodes.len() > 0 && heap.contains(h) && heap.resolve(h) == nodes[0],
    }
    &&& forall|i: int|
        0 <= i < nodes.len() ==> links_to(heap, #[trigger] nodes[i], successor(nodes, i))
}

/// `nodes` are the members of the pending list that starts at `head`, in list
/// order: settled objects, no two the same, each pointing at the next and the
/// last at nothing.
pub open spec fn is_pending_chain(
    heap: &Heap,
    head: Option<ObjectReference>,
    nodes: Seq<ObjectReference>,
) -> bool {
    &&& nodes.no_duplicates()
    &&& forall|i: int| 0 <= i < nodes.len() ==> heap.settled(#[trigger] nodes[i])
    &&& head == (if nodes.len() == 0 {
        None
    } else {
        Some(nodes[0])
    })
    &&& forall|i: int|
        0 <= i < nodes.len() ==> heap.discovered(#[trigger] nodes[i]) == (if i + 1 < nodes.len() {
            Some(nodes[i + 1])
        } else {
            None
        })
}

/// No object is a member of both lists.
pub open spec fn disjoint(a: Seq<ObjectReference>, b: Seq<ObjectReference>) -> bool {
    forall|i: int, j: int| 0 <= i < a.len() && 0 <= j < b.len() ==> a[i] != b[j]
}

/// A discovered list survives every change of the heap that leaves its
/// members alone.
pub proof fn lemma_discovered_chain_frame(
    before: &Heap,
    after: &Heap,
    touched: Seq<ObjectReference>,
    head: Option<ObjectReference>,
    nodes: Seq<ObjectReference>,
)
    requires
        is_discovered_chain(before, head, nodes),
        before.evolves(after, touched),
        disjoint(nodes, touched),
    ensures
        is_discovered_chain(after, head, nodes),
{
    assert forall|i: int| 0 <= i < nodes.len() implies after.object(#[trigger] nodes[i])
        == before.object(nodes[i]) by {
        let n = nodes[i];
        assert(before.settled(n));
        if touched.contains(n) {
            let j = choose|j: int| 0 <= j < touched.len() && touched[j] == n;
            assert(nodes[i] != touched[j]);
        }
    }
    assert forall|i: int| 0 <= i < nodes.len() implies links_to(
        after,
        #[trigger] nodes[i],
        successor(nodes, i),
    ) by {
        assert(links_to(before, nodes[i], successor(nodes, i)));
        let x = before.discovered(nodes[i]).unwrap();
        assert(after.object(x).forwarding == before.object(x).forwarding) by {
            if before.forwarded(x) is None {
                assert(x == successor(nodes, i));
                assert(before.settled(successor(nodes, i)));
            }
        }
    }
    if head is Some {
        let h = head.unwrap();
        assert(after.object(h).forwarding == before.object(h).forwarding) by {
            if before.forwarded(h) is None {
                assert(h == nodes[0]);
                assert(before.settled(nodes[0]));
            }
        }
    }
}

/// A pending list survives every change of the heap that leaves its members
/// alone.
pub proof fn lemma_pending_chain_frame(
    before: &Heap,
    after: &Heap,
    touched: Seq<ObjectReference>,
    head: Option<ObjectReference>,
    nodes: Seq<ObjectReference>,
)
    requires
        is_pending_chain(before, head, nodes),
        before.evolves(after, touched),
        disjoint(nodes, touched),
    ensures
        is_pending_chain(after, head, nodes),
        forall|i: int|
            0 <= i < nodes.len() ==> after.object(#[trigger] nodes[i]) == before.object(nodes[i]),
{
    assert forall|i: int| 0 <= i < nodes.len() implies after.object(#[trigger] nodes[i])
        == before.object(nodes[i]) by {
        let n = nodes[i];
        assert(before.settled(n));
        if touched.contains(n) {
            let j = choose|j: int| 0 <= j < touched.len() && touched[j] == n;
            assert(nodes[i] != touched[j]);
        }
    }
}

/// One discovered list: the references of one kind that one worker has
/// discovered in the current cycle.
#[derive(Clone, Copy)]
pub struct DiscoveredList {
    head: Option<ObjectReference>,
    rt: ReferenceType,
    nodes: Ghost<Seq<ObjectReference>>,
}

impl View for DiscoveredList {
    type V = Seq<ObjectReference>;

    /// The members, head first.
    closed spec fn view(&self) -> Seq<ObjectReference> {
        self.nodes@
    }
}

impl DiscoveredList {
    /// The first member, if any.
    pub closed spec fn spec_head(&self) -> Option<ObjectReference> {
        self.head
    }

    /// The kind of reference that the list holds.
    pub closed spec fn spec_kind(&self) -> ReferenceType {
        self.rt
    }

    /// The list is a chain through `heap` that ends in a member linked to itself.
    pub open spec fn wf(&self, heap: &Heap) -> bool {
        is_discovered_chain(heap, self.spec_head(), self@)
    }

    /// An empty list for references of kind `rt`.
    pub fn new(rt: ReferenceType) -> (list: Self)
        ensures
            list@ == Seq::<ObjectReference>::empty(),
            list.spec_head() is None,
            list.spec_kind() == rt,
    {
        Self { head: None, rt, nodes: Ghost(Seq::empty()) }
    }

    /// The first member, if any.
    #[verifier::when_used_as_spec(spec_head)]
    pub fn head(&self) -> (head: Option<ObjectReference>)
        ensures
            head == self.spec_head(),
    {
        self.head
    }

    /// Whether the list has no member.
    pub fn is_empty(&self) -> (empty: bool)
        ensures
            empty == (self.spec_head() is None),
    {
        self.head.is_none()
    }

    /// The kind of reference that the list holds.
    #[verifier::when_used_as_spec(spec_kind)]
    pub fn kind(&self) -> (rt: ReferenceType)
        ensures
            rt == self.spec_kind(),
    {
        self.rt
    }

    /// Puts `reference` at the head of the list unless it is in a list
    /// already, and says whether it did.
    ///
    /// The `discovered` field of `reference` is claimed by a compare-and-swap
    /// from empty to the old head, or to `reference` itself when the list was
    /// empty. Where the field is taken, nothing changes. The caller that
    /// gets `true` tells the trace to keep the reference and its referent
    /// alive until the list is processed.
    pub fn add(
        &mut self,
        heap: &mut Heap,
        reference: ObjectReference,
        referent: ObjectReference,
    ) -> (inserted: bool)
        requires
            old(heap).wf(),
            old(self).wf(old(heap)),
            old(heap).settled(reference),
            old(heap).referent(reference) == Some(referent),
        ensures
            final(heap).wf(),
            final(self).wf(final(heap)),
            final(self).spec_kind() == old(self).spec_kind(),
            inserted == (old(heap).discovered(reference) is None),
            final(heap).discovered(reference) is Some,
            inserted ==> final(self)@ == seq![reference] + old(self)@ && final(self).spec_head()
                == Some(reference) && final(heap)@ == old(heap)@.update(
                reference.addr as int,
                old(heap).object(reference).with_discovered(
                    Some(
                        match old(self).spec_head() {
                            Some(h) => h,
                            None => reference,
                        },
                    ),
                ),
            ),
            !inserted ==> *final(self) == *old(self) && final(heap)@ == old(heap)@,
            old(heap).evolves(final(heap), seq![reference]),
    {
        let next_discovered: ObjectReference = match self.head {
            Some(head) => head,
            None => reference,
        };
        let ghost before = *heap;
        let ghost members = self.nodes@;
        let claimed = heap.compare_exchange_discovered(reference, None, Some(next_discovered));
        if claimed.is_ok() {
            proof {
                assert(seq![reference][0] == reference);
                assert(disjoint(members, seq![reference])) by {
                    assert forall|i: int| 0 <= i < members.len() implies members[i]
                        != reference by {
                        assert(links_to(&before, members[i], successor(members, i)));
                    }
                }
                lemma_discovered_chain_frame(
                    &before,
                    heap,
                    seq![reference],
                    self.head,
                    members,
                );
                let grown = seq![reference] + members;
                assert forall|i: int| 0 <= i < grown.len() implies heap.settled(
                    #[trigger] grown[i],
                ) by {
                    if i > 0 {
                        assert(grown[i] == members[i - 1]);
                    }
                }
                assert forall|i: int| 0 <= i < grown.len() implies links_to(
                    heap,
                    #[trigger] grown[i],
                    successor(grown, i),
                ) by {
                    if i > 0 {
                        assert(grown[i] == members[i - 1]);
                        assert(links_to(heap, members[i - 1], successor(members, i - 1)));
                        assert(successor(grown, i) == successor(members, i - 1));
                    } else {
                        if members.len() > 0 {
                            assert(grown[1] == members[0]);
                        }
                    }
                }
                assert(grown.no_duplicates()) by {
                    assert forall|i: int, j: int|
                        0 <= i < grown.len() && 0 <= j < grown.len() && i != j implies grown[i]
                        != grown[j] by {
                        if i > 0 {
                            assert(grown[i] == members[i - 1]);
                        }
                        if j > 0 {
                            assert(grown[j] == members[j - 1]);
                        }
                    }
                }
            }
            self.head = Some(reference);
            self.nodes = Ghost(seq![reference] + members);
            true
        } else {
            false
        }
    }
}

/// The two switches by which the runtime turns reference processing off.
#[derive(Clone, Copy, Debug, PartialEq, Eq, Structural)]
pub struct ReferenceOptions {
    /// Soft, weak and phantom references are treated as ordinary objects.
    pub no_reference_types: bool,
    /// Final references are treated as ordinary objects.
    pub no_finalizer: bool,
}

/// All discovered lists: one per kind and worker, and the discovery gate that guards them.
pub struct DiscoveredLists {
    soft: Vec<DiscoveredList>,
    weak: Vec<DiscoveredList>,
    finalizable: Vec<DiscoveredList>,
    phantom: Vec<DiscoveredList>,
    allow_discover: DiscoveryGate,
}

/// `workers` empty lists of kind `rt`.
fn build_lists(rt: ReferenceType, workers: usize) -> (lists: Vec<DiscoveredList>)
    ensures
        lists@.len() == workers,
        forall|i: int|
            0 <= i < workers ==> (#[trigger] lists@[i])@ == Seq::<ObjectReference>::empty()
                && lists@[i].spec_head() is None && lists@[i].spec_kind() == rt,
{
    let mut lists: Vec<DiscoveredList> = Vec::new();
    let mut i: usize = 0;
    while i < workers
        invariant
            i <= workers,
            lists@.len() == i,
            forall|k: int|
                0 <= k < i ==> (#[trigger] lists@[k])@ == Seq::<ObjectReference>::empty()
                    && lists@[k].spec_head() is None && lists@[k].spec_kind() == rt,
        decreases workers - i,
    {
        lists.push(DiscoveredList::new(rt));
        i = i + 1;
    }
    lists
}

impl DiscoveredLists {
    /// The number of workers, and so of lists of each kind.
    pub closed spec fn workers(&self) -> nat {
        self.soft@.len()
    }

    /// The list of kind `rt` that belongs to worker `index`.
    pub closed spec fn list(&self, rt: ReferenceType, index: int) -> DiscoveredList {
        match rt {
            ReferenceType::Soft => self.soft@[index],
            ReferenceType::Weak => self.weak@[index],
            ReferenceType::Final => self.finalizable@[index],
            _ => self.phantom@[index],
        }
    }

    /// There are as many lists of one kind as of any other.
    pub closed spec fn shaped(&self) -> bool {
        &&& self.weak@.len() == self.soft@.len()
        &&& self.finalizable@.len() == self.soft@.len()
        &&& self.phantom@.len() == self.soft@.len()
    }

    /// `rt` and `index` name one of the lists.
    pub open spec fn slot(&self, rt: ReferenceType, index: int) -> bool {
        rt.is_listed() && 0 <= index < self.workers()
    }

    /// The registry's invariant: every list is well formed and holds its own
    /// kind, and no object is a member of two lists.
    pub open spec fn wf(&self, heap: &Heap) -> bool {
        &&& self.shaped()
        &&& forall|rt: ReferenceType, i: int|
            self.slot(rt, i) ==> (#[trigger] self.list(rt, i)).wf(heap) && self.list(
                rt,
                i,
            ).spec_kind() == rt
        &&& forall|rt1: ReferenceType, i1: int, rt2: ReferenceType, i2: int|
            #![trigger self.list(rt1, i1), self.list(rt2, i2)]
            self.slot(rt1, i1) && self.slot(rt2, i2) && (rt1 != rt2 || i1 != i2) ==> disjoint(
                self.list(rt1, i1)@,
                self.list(rt2, i2)@,
            )
    }

    /// Every list but the one of kind `rt` and worker `index` is the same in `other`.
    pub open spec fn same_but(
        &self,
        other: &DiscoveredLists,
        rt: ReferenceType,
        index: int,
    ) -> bool {
        &&& self.shaped() == other.shaped()
        &&& self.workers() == other.workers()
        &&& forall|rt2: ReferenceType, i2: int|
            self.slot(rt2, i2) && (rt2 != rt || i2 != index) ==> #[trigger] other.list(rt2, i2)
                == self.list(rt2, i2)
    }

    /// Every list is the same in `other`.
    pub open spec fn same_lists(&self, other: &DiscoveredLists) -> bool {
        &&& self.shaped() == other.shaped()
        &&& self.workers() == other.workers()
        &&& forall|rt2: ReferenceType, i2: int|
            self.slot(rt2, i2) ==> #[trigger] other.list(rt2, i2) == self.list(rt2, i2)
    }

    /// No member of `nodes` is a member of any list.
    pub open spec fn apart_from(&self, nodes: Seq<ObjectReference>) -> bool {
        forall|rt: ReferenceType, i: int|
            self.slot(rt, i) ==> disjoint((#[trigger] self.list(rt, i))@, nodes)
    }

    /// Empty lists for `workers` workers, behind an open gate.
    pub fn new(workers: usize) -> (lists: Self)
        ensures
            lists.workers() == workers,
            lists.shaped(),
            forall|rt: ReferenceType, i: int|
                lists.slot(rt, i) ==> (#[trigger] lists.list(rt, i))@ == Seq::<
                    ObjectReference,
                >::empty() && lists.list(rt, i).spec_head() is None && lists.list(rt, i).spec_kind()
                    == rt,
            forall|heap: &Heap| lists.wf(heap),
    {
        let lists = Self {
            soft: build_lists(ReferenceType::Soft, workers),
            weak: build_lists(ReferenceType::Weak, workers),
            finalizable: build_lists(ReferenceType::Final, workers),
            phantom: build_lists(ReferenceType::Phantom, workers),
            allow_discover: DiscoveryGate::new(),
        };
        proof {
            assert forall|rt: ReferenceType, i: int| lists.slot(rt, i) implies (#[trigger] lists.list(
                rt,
                i,
            ))@ == Seq::<ObjectReference>::empty() && lists.list(rt, i).spec_head() is None
                && lists.list(rt, i).spec_kind() == rt by {
                match rt {
                    ReferenceType::Soft => {
                        assert(lists.list(rt, i) == lists.soft@[i]);
                    },
                    ReferenceType::Weak => {
                        assert(lists.list(rt, i) == lists.weak@[i]);
                    },
                    ReferenceType::Final => {
                        assert(lists.list(rt, i) == lists.finalizable@[i]);
                    },
                    _ => {
                        assert(lists.list(rt, i) == lists.phantom@[i]);
                    },
                }
            }
        }
        lists
    }

    /// The number of workers, and so of lists of each kind.
    pub fn num_workers(&self) -> (n: usize)
        ensures
            n == self.workers(),
    {
        self.soft.len()
    }

    /// Opens the discovery gate, as the mutators resume.
    pub fn enable_discover(&self) {
        self.allow_discover.open()
    }

    /// Whether the discovery gate stands open at this moment.
    pub fn allow_discover(&self) -> (open: bool) {
        self.allow_discover.is_open()
    }

    /// Whether `reference` is a member of some list: whether its
    /// `discovered` field holds anything.
    pub fn is_discovered(&self, heap: &Heap, reference: ObjectReference) -> (discovered: bool)
        requires
            heap.contains(reference),
        ensures
            discovered == (heap.discovered(reference) is Some),
    {
        get_next_reference(heap, reference).is_some()
    }

    /// The list of kind `rt` that belongs to worker `index`.
    pub fn get_by_rt_and_index(&self, rt: ReferenceType, index: usize) -> (list: &DiscoveredList)
        requires
            self.shaped(),
            self.slot(rt, index as int),
        ensures
            *list == self.list(rt, index as int),
    {
        match rt {
            ReferenceType::Soft => &self.soft[index],
            ReferenceType::Weak => &self.weak[index],
            ReferenceType::Phantom => &self.phantom[index],
            _ => &self.finalizable[index],
        }
    }

    /// The list of kind `rt` that belongs to the worker that asks. `worker`
    /// is the ordinal of that worker; a thread that is no collector worker
    /// has none and may not ask.
    pub fn get(&self, rt: ReferenceType, worker: Option<usize>) -> (list: &DiscoveredList)
        requires
            self.shaped(),
            worker is Some,
            self.slot(rt, worker.unwrap() as int),
        ensures
            *list == self.list(rt, worker.unwrap() as int),
    {
        let id: usize = worker.unwrap();
        self.get_by_rt_and_index(rt, id)
    }

    /// Replaces the list of kind `rt` that belongs to worker `index`.
    fn put(&mut self, rt: ReferenceType, index: usize, list: DiscoveredList)
        requires
            old(self).shaped(),
            old(self).slot(rt, index as int),
        ensures
            final(self).shaped(),
            final(self).list(rt, index as int) == list,
            old(self).same_but(final(self), rt, index as int),
    {
        match rt {
            ReferenceType::Soft => self.soft.set(index, list),
            ReferenceType::Weak => self.weak.set(index, list),
            ReferenceType::Phantom => self.phantom.set(index, list),
            _ => self.finalizable.set(index, list),
        }
    }

    /// A list that gains a member no other list holds leaves the registry
    /// well formed.
    proof fn lemma_grown_list_keeps_wf(
        &self,
        after: &DiscoveredLists,
        before_heap: &Heap,
        after_heap: &Heap,
        rt: ReferenceType,
        index: int,
        reference: ObjectReference,
    )
        requires
            self.wf(before_heap),
            self.slot(rt, index),
            before_heap.evolves(after_heap, seq![reference]),
            before_heap.discovered(reference) is None,
            self.same_but(after, rt, index),
            after.list(rt, index).wf(after_heap),
            after.list(rt, index).spec_kind() == rt,
            after.list(rt, index)@ == seq![reference] + self.list(rt, index)@,
        ensures
            after.wf(after_heap),
    {
        let only = seq![reference];
        assert(only[0] == reference);
        assert forall|rt2: ReferenceType, i2: int| self.slot(rt2, i2) implies disjoint(
            (#[trigger] self.list(rt2, i2))@,
            only,
        ) by {
            let members = self.list(rt2, i2)@;
            assert(self.list(rt2, i2).wf(before_heap));
            assert forall|k: int| 0 <= k < members.len() implies members[k] != reference by {
                assert(links_to(before_heap, members[k], successor(members, k)));
            }
        }
        assert forall|rt2: ReferenceType, i2: int| after.slot(rt2, i2) implies (#[trigger] after.list(
            rt2,
            i2,
        )).wf(after_heap) && after.list(rt2, i2).spec_kind() == rt2 by {
            if rt2 != rt || i2 != index {
                assert(after.list(rt2, i2) == self.list(rt2, i2));
                assert(self.list(rt2, i2).wf(before_heap));
                lemma_discovered_chain_frame(
                    before_heap,
                    after_heap,
                    only,
                    self.list(rt2, i2).spec_head(),
                    self.list(rt2, i2)@,
                );
            }
        }
        assert forall|rt1: ReferenceType, i1: int, rt2: ReferenceType, i2: int|
            #![trigger after.list(rt1, i1), after.list(rt2, i2)]
            after.slot(rt1, i1) && after.slot(rt2, i2) && (rt1 != rt2 || i1 != i2) implies disjoint(
            after.list(rt1, i1)@,
            after.list(rt2, i2)@,
        ) by {
            let a = after.list(rt1, i1)@;
            let b = after.list(rt2, i2)@;
            let a0 = self.list(rt1, i1)@;
            let b0 = self.list(rt2, i2)@;
            assert(disjoint(a0, b0));
            assert(disjoint(a0, only));
            assert(disjoint(b0, only));
            assert forall|k: int, l: int| 0 <= k < a.len() && 0 <= l < b.len() implies a[k]
                != b[l] by {
                if rt1 == rt && i1 == index {
                    assert(b == b0);
                    if k > 0 {
                        assert(a[k] == a0[k - 1]);
                    } else {
                        assert(b0[l] != only[0]);
                    }
                } else if rt2 == rt && i2 == index {
                    assert(a == a0);
                    if l > 0 {
                        assert(b[l] == b0[l - 1]);
                    } else {
                        assert(a0[k] != only[0]);
                    }
                } else {
                    assert(a == a0);
                    assert(b == b0);
                }
            }
        }
    }

    /// Discovers `reference`, given what the discovery gate said.
    ///
    /// With the discovery gate open, `reference` becomes the head of the list of kind
    /// `rt` of worker `worker`, unless it is in a list already. With the
    /// gate closed, or the reference taken, nothing changes and the caller
    /// treats the referent as strongly reachable.
    pub fn discover_when(
        &mut self,
        open: bool,
        heap: &mut Heap,
        worker: usize,
        reference: ObjectReference,
        referent: ObjectReference,
        rt: ReferenceType,
    ) -> (discovered: bool)
        requires
            old(heap).wf(),
            old(self).wf(old(heap)),
            old(self).slot(rt, worker as int),
            old(heap).settled(reference),
            old(heap).referent(reference) == Some(referent),
        ensures
            final(heap).wf(),
            final(self).wf(final(heap)),
            old(self).same_but(final(self), rt, worker as int),
            discovered == (open && old(heap).discovered(reference) is None),
            discovered ==> final(self).list(rt, worker as int)@ == seq![reference] + old(self).list(
                rt,
                worker as int,
            )@ && final(self).list(rt, worker as int).spec_head() == Some(reference)
                && final(heap)@ == old(heap)@.update(
                reference.addr as int,
                old(heap).object(reference).with_discovered(
                    Some(
                        match old(self).list(rt, worker as int).spec_head() {
                            Some(h) => h,
                            None => reference,
                        },
                    ),
                ),
            ),
            !discovered ==> final(heap)@ == old(heap)@ && old(self).same_lists(final(self)),
            old(heap).evolves(final(heap), seq![reference]),
    {
        if !open {
            proof {
                assert(seq![reference][0] == reference);
            }
            return false;
        }
        let ghost before = *heap;
        let mut list: DiscoveredList = *self.get_by_rt_and_index(rt, worker);
        let inserted = list.add(heap, reference, referent);
        if inserted {
            self.put(rt, worker, list);
            proof {
                old(self).lemma_grown_list_keeps_wf(
                    self,
                    &before,
                    heap,
                    rt,
                    worker as int,
                    reference,
                );
            }
        }
        inserted
    }

    /// Discovers `reference` if the discovery gate stands open. It is
    /// read once; see [`Self::discover_when`] for what follows from what it said.
    pub fn discover(
        &mut self,
        heap: &mut Heap,
        worker: usize,
        reference: ObjectReference,
        referent: ObjectReference,
        rt: ReferenceType,
    ) -> (discovered: bool)
        requires
            old(heap).wf(),
            old(self).wf(old(heap)),
            old(self).slot(rt, worker as int),
            old(heap).settled(reference),
            old(heap).referent(reference) == Some(referent),
        ensures
            final(heap).wf(),
            final(self).wf(final(heap)),
            old(self).same_but(final(self), rt, worker as int),
            discovered ==> old(heap).discovered(reference) is None,
            discovered ==> final(self).list(rt, worker as int)@ == seq![reference] + old(self).list(
                rt,
                worker as int,
            )@ && final(self).list(rt, worker as int).spec_head() == Some(reference)
                && final(heap)@ == old(heap)@.update(
                reference.addr as int,
                old(heap).object(reference).with_discovered(
                    Some(
                        match old(self).list(rt, worker as int).spec_head() {
                            Some(h) => h,
                            None => reference,
                        },
                    ),
                ),
            ),
            !discovered ==> final(heap)@ == old(heap)@ && old(self).same_lists(final(self)),
            old(heap).evolves(final(heap), seq![reference]),
    {
        let open = self.allow_discover();
        self.discover_when(open, heap, worker, reference, referent, rt)
    }

    /// Soft references are not looked at a second time.
    pub fn reconsider_soft_refs(&self) {
    }
}

/// The runtime's queue of references that await notification: a list
/// threaded through the `discovered` field like a discovered list, but one
/// that ends in an empty field.
pub struct PendingList {
    head: Option<ObjectReference>,
    nodes: Ghost<Seq<ObjectReference>>,
}

impl View for PendingList {
    type V = Seq<ObjectReference>;

    /// The members, head first.
    closed spec fn view(&self) -> Seq<ObjectReference> {
        self.nodes@
    }
}

impl PendingList {
    /// The first member, if any.
    pub closed spec fn spec_head(&self) -> Option<ObjectReference> {
        self.head
    }

    /// The list is a chain through `heap` that ends in an empty field.
    pub open spec fn wf(&self, heap: &Heap) -> bool {
        is_pending_chain(heap, self.spec_head(), self@)
    }

    /// An empty queue.
    pub fn new() -> (pending: Self)
        ensures
            pending@ == Seq::<ObjectReference>::empty(),
            pending.spec_head() is None,
    {
        Self { head: None, nodes: Ghost(Seq::empty()) }
    }

    /// The first member, if any.
    #[verifier::when_used_as_spec(spec_head)]
    pub fn head(&self) -> (head: Option<ObjectReference>)
        ensures
            head == self.spec_head(),
    {
        self.head
    }

    /// Hands the whole queue to the runtime and leaves it empty.
    pub fn take(&mut self) -> (head: Option<ObjectReference>)
        ensures
            head == old(self).spec_head(),
            final(self)@ == Seq::<ObjectReference>::empty(),
            final(self).spec_head() is None,
    {
        let head = self.head;
        self.head = None;
        self.nodes = Ghost(Seq::empty());
        head
    }

    /// Exchanges the head of the queue for `new_head`, the head of a list
    /// with the members `kept`, and returns the old head. The queue is whole
    /// again once the tail of the new list points at the old head.
    fn swap_reference_pending_list(
        &mut self,
        new_head: ObjectReference,
        Ghost(kept): Ghost<Seq<ObjectReference>>,
    ) -> (old_head: Option<ObjectReference>)
        ensures
            old_head == old(self).spec_head(),
            final(self).spec_head() == Some(new_head),
            final(self)@ == kept + old(self)@,
    {
        let old_head = self.head;
        self.head = Some(new_head);
        self.nodes = Ghost(kept + self.nodes@);
        old_head
    }
}

/// Hands the pending list over to the runtime, whose own queue began at
/// `old_head` before it took the head of this one.
///
/// The last member is pointed at `old_head`, so that what the runtime had
/// queued follows what is handed over; no other field of any object is
/// written. Returns the head of what was pending, and leaves the pending
/// list empty.
pub fn hand_over(
    pending: &mut PendingList,
    heap: &mut Heap,
    old_head: Option<ObjectReference>,
) -> (head: Option<ObjectReference>)
    requires
        old(heap).wf(),
        old(pending).wf(old(heap)),
        old(heap).admits(old_head),
    ensures
        final(heap).wf(),
        head == old(pending).spec_head(),
        final(pending)@ == Seq::<ObjectReference>::empty(),
        final(pending).spec_head() is None,
        old(pending)@.len() == 0 ==> final(heap)@ == old(heap)@,
        old(pending)@.len() > 0 ==> final(heap)@ == old(heap)@.update(
            old(pending)@.last().addr as int,
            old(heap).object(old(pending)@.last()).with_discovered(old_head),
        ),
        old(heap).evolves(final(heap), old(pending)@),
{
    let head = pending.head;
    let ghost members = pending.nodes@;
    if let Some(first) = head {
        let mut tail = first;
        let ghost mut at: int = 0;
        proof {
            assert(heap.settled(members[0]));
        }
        let mut next = heap.load_discovered(tail);
        while next.is_some()
            invariant
                0 <= at < members.len(),
                tail == members[at],
                heap.contains(tail),
                next == heap.discovered(tail),
                is_pending_chain(heap, head, members),
            decreases members.len() - at,
        {
            proof {
                assert(heap.discovered(members[at]) is Some);
                assert(heap.settled(members[at + 1]));
            }
            tail = next.unwrap();
            proof {
                at = at + 1;
            }
            next = heap.load_discovered(tail);
        }
        proof {
            assert(heap.discovered(members[at]) is None);
            assert(at == members.len() - 1);
        }
        heap.store_discovered(tail, old_head);
        proof {
            assert(members.contains(members[at]));
            assert forall|x: ObjectReference| seq![tail].contains(x) implies members.contains(
                x,
            ) by {
                assert(seq![tail][0] == tail);
            }
            assert(old(heap).evolves(heap, members)) by {
                assert forall|x: ObjectReference| #![trigger heap.object(x)]
                    old(heap).contains(x) && !members.contains(x) implies heap.object(x)
                    == old(heap).object(x) by {
                    assert(x != tail);
                }
            }
        }
    }
    pending.head = None;
    pending.nodes = Ghost(Seq::empty());
    head
}

/// A list whose tail is pointed at the head of another list is the two lists
/// one after the other.
pub proof fn lemma_linked_lists(
    before: &Heap,
    after: &Heap,
    kept: Seq<ObjectReference>,
    pending: Seq<ObjectReference>,
)
    requires
        kept.len() > 0,
        is_pending_chain(before, head_of(kept), kept),
        is_pending_chain(before, head_of(pending), pending),
        disjoint(kept, pending),
        after@ == before@.update(
            kept.last().addr as int,
            before.object(kept.last()).with_discovered(head_of(pending)),
        ),
    ensures
        is_pending_chain(after, head_of(kept + pending), kept + pending),
        forall|i: int|
            0 <= i < pending.len() ==> after.object(#[trigger] pending[i]) == before.object(
                pending[i],
            ),
{
    let all = kept + pending;
    let tail = kept.last();
    assert(before.settled(kept[kept.len() - 1]));
    assert forall|i: int| 0 <= i < pending.len() implies after.object(#[trigger] pending[i])
        == before.object(pending[i]) by {
        assert(kept[kept.len() - 1] != pending[i]);
    }
    assert forall|i: int| 0 <= i < all.len() implies after.settled(#[trigger] all[i])
        && after.discovered(all[i]) == (if i + 1 < all.len() {
        Some(all[i + 1])
    } else {
        None
    }) by {
        if i < kept.len() {
            assert(all[i] == kept[i]);
            assert(before.settled(kept[i]));
            if i + 1 < kept.len() {
                assert(kept[i] != kept[kept.len() - 1]);
                assert(all[i + 1] == kept[i + 1]);
            } else if pending.len() > 0 {
                assert(all[i + 1] == pending[0]);
            }
        } else {
            assert(all[i] == pending[i - kept.len()]);
            assert(before.settled(pending[i - kept.len()]));
            if i + 1 < all.len() {
                assert(all[i + 1] == pending[i + 1 - kept.len()]);
            }
        }
    }
    assert forall|i: int, j: int| 0 <= i < all.len() && 0 <= j < all.len() && i != j implies all[i]
        != all[j] by {
        if i < kept.len() && j >= kept.len() {
            assert(kept[i] != pending[j - kept.len()]);
        }
        if j < kept.len() && i >= kept.len() {
            assert(kept[j] != pending[i - kept.len()]);
        }
    }
}

/// A list whose tail is pointed at itself is a discovered list.
pub proof fn lemma_closed_list(before: &Heap, after: &Heap, kept: Seq<ObjectReference>)
    requires
        kept.len() > 0,
        is_pending_chain(before, head_of(kept), kept),
        after@ == before@.update(
            kept.last().addr as int,
            before.object(kept.last()).with_discovered(Some(kept.last())),
        ),
    ensures
        is_discovered_chain(after, Some(kept[0]), kept),
{
    assert(before.settled(kept[kept.len() - 1]));
    assert forall|i: int| 0 <= i < kept.len() implies after.settled(#[trigger] kept[i])
        && links_to(after, kept[i], successor(kept, i)) by {
        assert(before.settled(kept[i]));
        if i + 1 < kept.len() {
            assert(kept[i] != kept[kept.len() - 1]);
            assert(before.settled(kept[i + 1]));
        }
    }
}

impl DiscoveredLists {
    /// The registry stays well formed while the heap changes around objects
    /// that are in none of its lists.
    pub proof fn lemma_apart_keeps_wf(
        &self,
        before: &Heap,
        after: &Heap,
        touched: Seq<ObjectReference>,
    )
        requires
            self.wf(before),
            before.evolves(after, touched),
            self.apart_from(touched),
        ensures
            self.wf(after),
    {
        assert forall|rt: ReferenceType, i: int| self.slot(rt, i) implies (#[trigger] self.list(
            rt,
            i,
        )).wf(after) by {
            assert(self.list(rt, i).wf(before));
            lemma_discovered_chain_frame(
                before,
                after,
                touched,
                self.list(rt, i).spec_head(),
                self.list(rt, i)@,
            );
        }
    }

    /// The registry stays well formed when one of its lists is replaced by a
    /// list of some of its own members, while the heap changes around the
    /// members of that list alone.
    pub proof fn lemma_shrunk_list_keeps_wf(
        &self,
        after: &DiscoveredLists,
        before_heap: &Heap,
        after_heap: &Heap,
        rt: ReferenceType,
        index: int,
    )
        requires
            self.wf(before_heap),
            self.slot(rt, index),
            before_heap.evolves(after_heap, self.list(rt, index)@),
            self.same_but(after, rt, index),
            after.list(rt, index).wf(after_heap),
            after.list(rt, index).spec_kind() == rt,
            within(after.list(rt, index)@, self.list(rt, index)@),
        ensures
            after.wf(after_heap),
    {
        let members = self.list(rt, index)@;
        let kept = after.list(rt, index)@;
        assert forall|rt2: ReferenceType, i2: int| after.slot(rt2, i2) implies (#[trigger] after.list(
            rt2,
            i2,
        )).wf(after_heap) && after.list(rt2, i2).spec_kind() == rt2 by {
            if rt2 != rt || i2 != index {
                assert(after.list(rt2, i2) == self.list(rt2, i2));
                assert(self.list(rt2, i2).wf(before_heap));
                assert(disjoint(self.list(rt2, i2)@, self.list(rt, index)@));
                lemma_discovered_chain_frame(
                    before_heap,
                    after_heap,
                    members,
                    self.list(rt2, i2).spec_head(),
                    self.list(rt2, i2)@,
                );
            }
        }
        assert forall|rt1: ReferenceType, i1: int, rt2: ReferenceType, i2: int|
            #![trigger after.list(rt1, i1), after.list(rt2, i2)]
            after.slot(rt1, i1) && after.slot(rt2, i2) && (rt1 != rt2 || i1 != i2) implies disjoint(
            after.list(rt1, i1)@,
            after.list(rt2, i2)@,
        ) by {
            let a = after.list(rt1, i1)@;
            let b = after.list(rt2, i2)@;
            let a0 = self.list(rt1, i1)@;
            let b0 = self.list(rt2, i2)@;
            assert(disjoint(a0, b0));
            assert forall|k: int, l: int| 0 <= k < a.len() && 0 <= l < b.len() implies a[k]
                != b[l] by {
                if rt1 == rt && i1 == index {
                    assert(b == b0);
                    assert(a0.contains(a[k]));
                    let m = choose|m: int| 0 <= m < a0.len() && a0[m] == a[k];
                    assert(a0[m] != b0[l]);
                } else if rt2 == rt && i2 == index {
                    assert(a == a0);
                    assert(b0.contains(b[l]));
                    let m = choose|m: int| 0 <= m < b0.len() && b0[m] == b[l];
                    assert(a0[k] != b0[m]);
                } else {
                    assert(a == a0);
                    assert(b == b0);
                }
            }
        }
    }
}

/// A unit of work for the scheduler: process the discovered list that
/// started at `head` when the unit was made.
#[derive(Clone, Copy)]
pub struct ProcessDiscoveredList {
    list_index: usize,
    head: ObjectReference,
    rt: ReferenceType,
    nodes: Ghost<Seq<ObjectReference>>,
}

/// A unit of work for the scheduler: keep alive what the final references of
/// one list refer to, and hand the references to the runtime.
#[derive(Clone, Copy)]
pub struct ResurrectFinalizables {
    list_index: usize,
    head: ObjectReference,
    nodes: Ghost<Seq<ObjectReference>>,
}

impl ProcessDiscoveredList {
    /// The worker whose list this is.
    pub closed spec fn spec_list_index(&self) -> usize {
        self.list_index
    }

    /// The head of the list when the unit was made.
    pub closed spec fn spec_head(&self) -> ObjectReference {
        self.head
    }

    /// The kind of reference that the list holds.
    pub closed spec fn spec_kind(&self) -> ReferenceType {
        self.rt
    }

    /// The members of the list when the unit was made, head first.
    pub closed spec fn members(&self) -> Seq<ObjectReference> {
        self.nodes@
    }

    /// The unit for `list`, the non-empty list of kind `rt` of worker `index`.
    pub closed spec fn for_list(list: DiscoveredList, rt: ReferenceType, index: int) -> Self {
        ProcessDiscoveredList {
            list_index: index as usize,
            head: list.head.unwrap(),
            rt,
            nodes: Ghost(list.nodes@),
        }
    }

    /// The units for the non-empty lists of kind `rt` of the first `upto`
    /// workers, in the order of the workers.
    pub open spec fn batch(lists: &DiscoveredLists, rt: ReferenceType, upto: int) -> Seq<Self>
        decreases upto,
    {
        if upto <= 0 {
            Seq::empty()
        } else {
            let earlier = Self::batch(lists, rt, upto - 1);
            let list = lists.list(rt, upto - 1);
            if list.spec_head() is Some {
                earlier.push(Self::for_list(list, rt, upto - 1))
            } else {
                earlier
            }
        }
    }

    /// The units depend on the lists of their own kind alone.
    pub proof fn lemma_batch_same(
        a: &DiscoveredLists,
        b: &DiscoveredLists,
        rt: ReferenceType,
        upto: int,
    )
        requires
            forall|i: int| 0 <= i < upto ==> #[trigger] a.list(rt, i) == b.list(rt, i),
        ensures
            Self::batch(a, rt, upto) == Self::batch(b, rt, upto),
        decreases upto,
    {
        if upto > 0 {
            Self::lemma_batch_same(a, b, rt, upto - 1);
            assert(a.list(rt, upto - 1) == b.list(rt, upto - 1));
        }
    }

    /// Each unit of a batch stands for one non-empty list of the registry,
    /// and the units come in the order of the workers.
    pub proof fn lemma_batch_units(lists: &DiscoveredLists, rt: ReferenceType, upto: int, k: int)
        requires
            0 <= upto <= lists.workers(),
            0 <= k < Self::batch(lists, rt, upto).len(),
        ensures
            ({
                let unit = Self::batch(lists, rt, upto)[k];
                let list = lists.list(rt, unit.spec_list_index() as int);
                &&& unit.spec_kind() == rt
                &&& unit.spec_list_index() < upto
                &&& Some(unit.spec_head()) == list.spec_head()
                &&& unit.members() == list@
                &&& k > 0 ==> Self::batch(lists, rt, upto)[k - 1].spec_list_index()
                    < unit.spec_list_index()
            }),
            Self::batch(lists, rt, upto).len() <= upto,
        decreases upto,
    {
        if upto > 0 {
            let earlier = Self::batch(lists, rt, upto - 1);
            let list = lists.list(rt, upto - 1);
            assert(lists.soft.len() <= usize::MAX);
            if earlier.len() > 0 {
                Self::lemma_batch_units(lists, rt, upto - 1, earlier.len() - 1);
            }
            if k < earlier.len() {
                Self::lemma_batch_units(lists, rt, upto - 1, k);
            }
        }
    }

    /// The units of a batch come in the order of the workers.
    pub proof fn lemma_batch_ordered(
        lists: &DiscoveredLists,
        rt: ReferenceType,
        upto: int,
        k: int,
        l: int,
    )
        requires
            0 <= upto <= lists.workers(),
            0 <= k < l < Self::batch(lists, rt, upto).len(),
        ensures
            Self::batch(lists, rt, upto)[k].spec_list_index() < Self::batch(
                lists,
                rt,
                upto,
            )[l].spec_list_index(),
        decreases upto,
    {
        if upto > 0 {
            let earlier = Self::batch(lists, rt, upto - 1);
            assert(lists.soft.len() <= usize::MAX);
            if l < earlier.len() {
                Self::lemma_batch_ordered(lists, rt, upto - 1, k, l);
            } else {
                Self::lemma_batch_units(lists, rt, upto - 1, k);
            }
        }
    }

    /// Every non-empty list has its unit in the batch.
    pub proof fn lemma_batch_covers(
        lists: &DiscoveredLists,
        rt: ReferenceType,
        upto: int,
        worker: int,
    )
        requires
            0 <= worker < upto <= lists.workers(),
            lists.list(rt, worker).spec_head() is Some,
        ensures
            exists|k: int|
                0 <= k < Self::batch(lists, rt, upto).len() && (#[trigger] Self::batch(
                    lists,
                    rt,
                    upto,
                )[k]).spec_list_index() == worker,
        decreases upto,
    {
        let now = Self::batch(lists, rt, upto);
        assert(lists.soft.len() <= usize::MAX);
        if worker == upto - 1 {
            assert(now[now.len() - 1].spec_list_index() == worker);
        } else {
            Self::lemma_batch_covers(lists, rt, upto - 1, worker);
            let earlier = Self::batch(lists, rt, upto - 1);
            let k = choose|k: int|
                0 <= k < earlier.len() && (#[trigger] earlier[k]).spec_list_index() == worker;
            assert(now[k] == earlier[k]);
        }
    }

    /// The list is still as it was when the unit was made.
    pub open spec fn ready(&self, heap: &Heap) -> bool {
        is_discovered_chain(heap, Some(self.spec_head()), self.members())
    }

    /// How the members are dealt with: soft references keep their referents
    /// alive unless memory is so short that this is an emergency collection.
    pub open spec fn visit(&self, emergency: bool) -> Visit {
        Visit::Classify {
            rt: self.spec_kind(),
            retain: self.spec_kind() == ReferenceType::Soft && !emergency,
        }
    }

    /// The worker whose list this is.
    #[verifier::when_used_as_spec(spec_list_index)]
    pub fn list_index(&self) -> (index: usize)
        ensures
            index == self.spec_list_index(),
    {
        self.list_index
    }

    /// The head of the list when the unit was made.
    #[verifier::when_used_as_spec(spec_head)]
    pub fn head(&self) -> (head: ObjectReference)
        ensures
            head == self.spec_head(),
    {
        self.head
    }

    /// The kind of reference that the list holds.
    #[verifier::when_used_as_spec(spec_kind)]
    pub fn kind(&self) -> (rt: ReferenceType)
        ensures
            rt == self.spec_kind(),
    {
        self.rt
    }

    /// Processes the list.
    ///
    /// Every member leaves the list. One whose referent is empty, reached by
    /// the trace, or retained is dropped, with its `referent` field brought up
    /// to date. Every other member is kept: a soft, weak or phantom
    /// reference is cleared and put in front of the pending list; a final
    /// reference keeps its referent and goes back into the registry, as the
    /// list of the same worker, to await resurrection.
    pub fn do_work(
        &self,
        lists: &mut DiscoveredLists,
        heap: &mut Heap,
        pending: &mut PendingList,
        emergency: bool,
    )
        requires
            old(heap).wf(),
            old(lists).wf(old(heap)),
            old(pending).wf(old(heap)),
            self.ready(old(heap)),
            old(lists).slot(self.spec_kind(), self.spec_list_index() as int),
            disjoint(old(pending)@, self.members()),
            self.spec_kind() == ReferenceType::Final ==> old(lists).list(
                ReferenceType::Final,
                self.spec_list_index() as int,
            )@ == self.members(),
            self.spec_kind() != ReferenceType::Final ==> old(lists).apart_from(self.members()),
        ensures
            final(heap).wf(),
            final(lists).wf(final(heap)),
            final(pending).wf(final(heap)),
            old(heap).evolves(final(heap), self.members()),
            !self.visit(emergency).retraces() ==> same_headers(old(heap), final(heap)),
            forall|j: int|
                0 <= j < self.members().len() ==> self.visit(emergency).settles(
                    old(heap),
                    final(heap),
                    #[trigger] self.members()[j],
                ),
            forall|j: int|
                0 <= j < self.members().len() && !self.visit(emergency).enqueues(
                    old(heap),
                    #[trigger] self.members()[j],
                ) ==> final(heap).discovered(self.members()[j]) is None,
            self.spec_kind() != ReferenceType::Final ==> final(pending)@ == enqueued(
                self.visit(emergency),
                old(heap),
                self.members(),
            ) + old(pending)@ && old(lists).same_lists(final(lists)),
            self.spec_kind() == ReferenceType::Final ==> final(pending)@ == old(pending)@
                && final(pending).spec_head() == old(pending).spec_head() && old(lists).same_but(
                final(lists),
                ReferenceType::Final,
                self.spec_list_index() as int,
            ) && final(lists).list(ReferenceType::Final, self.spec_list_index() as int)@
                == enqueued(self.visit(emergency), old(heap), self.members()),
            self.spec_kind() == ReferenceType::Final ==> final(lists).list(
                ReferenceType::Final,
                self.spec_list_index() as int,
            ).spec_head() == head_of(enqueued(self.visit(emergency), old(heap), self.members())),
            self.spec_kind() != ReferenceType::Final ==> final(pending).spec_head() == head_of(
                final(pending)@,
            ),
            forall|i: int|
                0 <= i < old(pending)@.len() ==> final(heap).object(#[trigger] old(pending)@[i])
                    == old(heap).object(old(pending)@[i]),
            others_untouched(old(heap), final(heap), self.members()),
            final(heap)@.len() <= old(heap)@.len() + self.members().len(),
    {
        let ghost start = *heap;
        let ghost members = self.nodes@;
        let retain = self.rt == ReferenceType::Soft && !emergency;
        let how = Visit::Classify { rt: self.rt, retain };
        let ghost kept = enqueued(how, &start, members);
        let new_list = iterate_list(heap, self.head, how, Ghost(members));
        let ghost walked = *heap;
        proof {
            lemma_pending_chain_frame(&start, &walked, members, pending.spec_head(), pending@);
            assert(disjoint(kept, pending@)) by {
                assert forall|k: int, l: int|
                    0 <= k < kept.len() && 0 <= l < pending@.len() implies kept[k]
                    != pending@[l] by {
                    assert(members.contains(kept[k]));
                    let m = choose|m: int| 0 <= m < members.len() && members[m] == kept[k];
                    assert(pending@[l] != members[m]);
                }
            }
        }
        match new_list {
            Some((head, tail)) => {
                proof {
                    assert(walked.settled(kept[kept.len() - 1]));
                    assert(walked.settled(kept[0]));
                    assert(members.contains(kept[kept.len() - 1]));
                    assert(within(seq![tail], members)) by {
                        assert(seq![tail][0] == tail);
                    }
                }
                if self.rt == ReferenceType::Final {
                    set_next_reference(heap, tail, Some(tail));
                    let list = DiscoveredList {
                        head: Some(head),
                        rt: ReferenceType::Final,
                        nodes: Ghost(kept),
                    };
                    lists.put(ReferenceType::Final, self.list_index, list);
                    proof {
                        lemma_closed_list(&walked, heap, kept);
                        lemma_evolves_trans(&start, &walked, heap, members, seq![tail], members);
                        lemma_pending_chain_frame(
                            &walked,
                            heap,
                            seq![tail],
                            pending.spec_head(),
                            pending@,
                        );
                        old(lists).lemma_shrunk_list_keeps_wf(
                            lists,
                            &start,
                            heap,
                            ReferenceType::Final,
                            self.list_index as int,
                        );
                    }
                } else {
                    let old_head = pending.swap_reference_pending_list(head, Ghost(kept));
                    set_next_reference(heap, tail, old_head);
                    proof {
                        lemma_linked_lists(&walked, heap, kept, old(pending)@);
                        lemma_evolves_trans(&start, &walked, heap, members, seq![tail], members);
                        lists.lemma_apart_keeps_wf(&start, heap, members);
                    }
                }
                proof {
                    lemma_members_stay(how, &start, &walked, heap, self.head, members, tail);
                }
            },
            None => {
                if self.rt == ReferenceType::Final {
                    lists.put(
                        ReferenceType::Final,
                        self.list_index,
                        DiscoveredList::new(ReferenceType::Final),
                    );
                    proof {
                        assert(kept =~= Seq::empty());
                        old(lists).lemma_shrunk_list_keeps_wf(
                            lists,
                            &start,
                            heap,
                            ReferenceType::Final,
                            self.list_index as int,
                        );
                    }
                } else {
                    proof {
                        assert(kept =~= Seq::empty());
                        assert(kept + old(pending)@ =~= old(pending)@);
                        lists.lemma_apart_keeps_wf(&start, heap, members);
                    }
                }
            },
        }
    }

}

/// Linking the tail of the new list changes nothing else about the members
/// of the old one.
proof fn lemma_members_stay(
    how: Visit,
    start: &Heap,
    walked: &Heap,
    after: &Heap,
    head: ObjectReference,
    members: Seq<ObjectReference>,
    tail: ObjectReference,
)
    requires
        start.wf(),
        is_discovered_chain(start, Some(head), members),
        start.evolves(walked, members),
        enqueued(how, start, members).len() > 0,
        tail == enqueued(how, start, members).last(),
        within(enqueued(how, start, members), members),
        walked.evolves(after, seq![tail]),
        after.referent(tail) == walked.referent(tail),
        same_headers(walked, after),
        forall|j: int|
            0 <= j < members.len() ==> how.settles(start, walked, #[trigger] members[j]),
        forall|j: int|
            0 <= j < members.len() && !how.enqueues(start, #[trigger] members[j])
                ==> walked.discovered(members[j]) is None,
    ensures
        forall|j: int| 0 <= j < members.len() ==> how.settles(start, after, #[trigger] members[j]),
        forall|j: int|
            0 <= j < members.len() && !how.enqueues(start, #[trigger] members[j])
                ==> after.discovered(members[j]) is None,
        same_headers(start, walked) ==> same_headers(start, after),
{
    let kept = enqueued(how, start, members);
    lemma_enqueued_members(how, start, members);
    assert(seq![tail][0] == tail);
    assert forall|j: int| 0 <= j < members.len() implies how.settles(
        start,
        after,
        #[trigger] members[j],
    ) by {
        assert(start.settled(members[j]));
        let _ = after.object(members[j]);
        lemma_settles_stable(how, start, walked, after, seq![tail], members[j]);
    }
    assert forall|j: int|
        0 <= j < members.len() && !how.enqueues(start, #[trigger] members[j])
        implies after.discovered(members[j]) is None by {
        assert(start.settled(members[j]));
        let _ = walked.object(members[j]);
        assert(!kept.contains(members[j]));
        assert(members[j] != tail);
        assert(!seq![tail].contains(members[j]));
    }
}

impl ResurrectFinalizables {
    /// The worker whose list this is.
    pub closed spec fn spec_list_index(&self) -> usize {
        self.list_index
    }

    /// The head of the list when the unit was made.
    pub closed spec fn spec_head(&self) -> ObjectReference {
        self.head
    }

    /// The members of the list when the unit was made, head first.
    pub closed spec fn members(&self) -> Seq<ObjectReference> {
        self.nodes@
    }

    /// The unit for `list`, the non-empty list of final references of worker `index`.
    pub closed spec fn for_list(list: DiscoveredList, index: int) -> Self {
        ResurrectFinalizables {
            list_index: index as usize,
            head: list.head.unwrap(),
            nodes: Ghost(list.nodes@),
        }
    }

    /// The units for the non-empty lists of final references of the first
    /// `upto` workers, in the order of the workers.
    pub open spec fn batch(lists: &DiscoveredLists, upto: int) -> Seq<Self>
        decreases upto,
    {
        if upto <= 0 {
            Seq::empty()
        } else {
            let earlier = Self::batch(lists, upto - 1);
            let list = lists.list(ReferenceType::Final, upto - 1);
            if list.spec_head() is Some {
                earlier.push(Self::for_list(list, upto - 1))
            } else {
                earlier
            }
        }
    }

    /// Each unit of a batch stands for one non-empty list of final
    /// references, and the units come in the order of the workers.
    pub proof fn lemma_batch_units(lists: &DiscoveredLists, upto: int, k: int)
        requires
            0 <= upto <= lists.workers(),
            0 <= k < Self::batch(lists, upto).len(),
        ensures
            ({
                let unit = Self::batch(lists, upto)[k];
                let list = lists.list(ReferenceType::Final, unit.spec_list_index() as int);
                &&& unit.spec_list_index() < upto
                &&& Some(unit.spec_head()) == list.spec_head()
                &&& unit.members() == list@
                &&& k > 0 ==> Self::batch(lists, upto)[k - 1].spec_list_index()
                    < unit.spec_list_index()
            }),
            Self::batch(lists, upto).len() <= upto,
        decreases upto,
    {
        if upto > 0 {
            let earlier = Self::batch(lists, upto - 1);
            assert(lists.soft.len() <= usize::MAX);
            if earlier.len() > 0 {
                Self::lemma_batch_units(lists, upto - 1, earlier.len() - 1);
            }
            if k < earlier.len() {
                Self::lemma_batch_units(lists, upto - 1, k);
            }
        }
    }

    /// The units of a batch come in the order of the workers.
    pub proof fn lemma_batch_ordered(lists: &DiscoveredLists, upto: int, k: int, l: int)
        requires
            0 <= upto <= lists.workers(),
            0 <= k < l < Self::batch(lists, upto).len(),
        ensures
            Self::batch(lists, upto)[k].spec_list_index() < Self::batch(
                lists,
                upto,
            )[l].spec_list_index(),
        decreases upto,
    {
        if upto > 0 {
            let earlier = Self::batch(lists, upto - 1);
            assert(lists.soft.len() <= usize::MAX);
            if l < earlier.len() {
                Self::lemma_batch_ordered(lists, upto - 1, k, l);
            } else {
                Self::lemma_batch_units(lists, upto - 1, k);
            }
        }
    }

    /// Every non-empty list of final references has its unit in the batch.
    pub proof fn lemma_batch_covers(lists: &DiscoveredLists, upto: int, worker: int)
        requires
            0 <= worker < upto <= lists.workers(),
            lists.list(ReferenceType::Final, worker).spec_head() is Some,
        ensures
            exists|k: int|
                0 <= k < Self::batch(lists, upto).len() && (#[trigger] Self::batch(
                    lists,
                    upto,
                )[k]).spec_list_index() == worker,
        decreases upto,
    {
        let now = Self::batch(lists, upto);
        assert(lists.soft.len() <= usize::MAX);
        if worker == upto - 1 {
            assert(now[now.len() - 1].spec_list_index() == worker);
        } else {
            Self::lemma_batch_covers(lists, upto - 1, worker);
            let earlier = Self::batch(lists, upto - 1);
            let k = choose|k: int|
                0 <= k < earlier.len() && (#[trigger] earlier[k]).spec_list_index() == worker;
            assert(now[k] == earlier[k]);
        }
    }

    /// The list is still as it was when the unit was made.
    pub open spec fn ready(&self, heap: &Heap) -> bool {
        is_discovered_chain(heap, Some(self.spec_head()), self.members())
    }

    /// The worker whose list this is.
    #[verifier::when_used_as_spec(spec_list_index)]
    pub fn list_index(&self) -> (index: usize)
        ensures
            index == self.spec_list_index(),
    {
        self.list_index
    }

    /// The head of the list when the unit was made.
    #[verifier::when_used_as_spec(spec_head)]
    pub fn head(&self) -> (head: ObjectReference)
        ensures
            head == self.spec_head(),
    {
        self.head
    }

    /// Resurrects the referents of the list and hands the list on.
    ///
    /// Every member is kept. Its referent is traced, so that it stays alive
    /// for one more cycle, and the `referent` field is brought up to date.
    /// The members are put in front of the pending list, and the worker's
    /// list of final references is left empty.
    pub fn do_work(&self, lists: &mut DiscoveredLists, heap: &mut Heap, pending: &mut PendingList)
        requires
            old(heap).wf(),
            old(lists).wf(old(heap)),
            old(pending).wf(old(heap)),
            self.ready(old(heap)),
            old(lists).slot(ReferenceType::Final, self.spec_list_index() as int),
            disjoint(old(pending)@, self.members()),
            old(lists).apart_from(self.members()),
        ensures
            final(heap).wf(),
            final(lists).wf(final(heap)),
            final(pending).wf(final(heap)),
            old(heap).evolves(final(heap), self.members()),
            forall|j: int|
                0 <= j < self.members().len() ==> Visit::Resurrect.settles(
                    old(heap),
                    final(heap),
                    #[trigger] self.members()[j],
                ),
            final(pending)@ == enqueued(Visit::Resurrect, old(heap), self.members()) + old(
                pending,
            )@,
            old(lists).same_but(
                final(lists),
                ReferenceType::Final,
                self.spec_list_index() as int,
            ),
            final(lists).list(ReferenceType::Final, self.spec_list_index() as int)@ == Seq::<
                ObjectReference,
            >::empty(),
            final(lists).list(ReferenceType::Final, self.spec_list_index() as int).spec_head()
                is None,
            final(pending).spec_head() == head_of(final(pending)@),
            forall|i: int|
                0 <= i < old(pending)@.len() ==> final(heap).object(#[trigger] old(pending)@[i])
                    == old(heap).object(old(pending)@[i]),
            others_untouched(old(heap), final(heap), self.members()),
            final(heap)@.len() <= old(heap)@.len() + self.members().len(),
    {
        let ghost start = *heap;
        let ghost members = self.nodes@;
        let how = Visit::Resurrect;
        let ghost kept = enqueued(how, &start, members);
        let new_list = iterate_list(heap, self.head, how, Ghost(members));
        let ghost walked = *heap;
        proof {
            lemma_pending_chain_frame(&start, &walked, members, pending.spec_head(), pending@);
            assert(disjoint(kept, pending@)) by {
                assert forall|k: int, l: int|
                    0 <= k < kept.len() && 0 <= l < pending@.len() implies kept[k]
                    != pending@[l] by {
                    assert(members.contains(kept[k]));
                    let m = choose|m: int| 0 <= m < members.len() && members[m] == kept[k];
                    assert(pending@[l] != members[m]);
                }
            }
        }
        if let Some((head, tail)) = new_list {
            proof {
                assert(walked.settled(kept[kept.len() - 1]));
                assert(walked.settled(kept[0]));
                assert(members.contains(kept[kept.len() - 1]));
                assert(within(seq![tail], members)) by {
                    assert(seq![tail][0] == tail);
                }
            }
            let old_head = pending.swap_reference_pending_list(head, Ghost(kept));
            set_next_reference(heap, tail, old_head);
            proof {
                lemma_linked_lists(&walked, heap, kept, old(pending)@);
                lemma_evolves_trans(&start, &walked, heap, members, seq![tail], members);
                lemma_members_stay(how, &start, &walked, heap, self.head, members, tail);
            }
        } else {
            proof {
                assert(kept =~= Seq::empty());
                assert(kept + old(pending)@ =~= old(pending)@);
            }
        }
        proof {
            lists.lemma_apart_keeps_wf(&start, heap, members);
        }
        let ghost kept_lists = *lists;
        lists.put(
            ReferenceType::Final,
            self.list_index,
            DiscoveredList::new(ReferenceType::Final),
        );
        proof {
            kept_lists.lemma_shrunk_list_keeps_wf(
                lists,
                heap,
                heap,
                ReferenceType::Final,
                self.list_index as int,
            );
        }
    }
}

impl DiscoveredLists {
    /// The lists of the kinds in `kinds` are empty in `after`, and every
    /// other list is as it was.
    pub open spec fn cleared(&self, after: &DiscoveredLists, kinds: Set<ReferenceType>) -> bool {
        &&& after.shaped() == self.shaped()
        &&& after.workers() == self.workers()
        &&& forall|rt: ReferenceType, i: int|
            self.slot(rt, i) ==> if kinds.contains(rt) {
                &&& (#[trigger] after.list(rt, i))@ == Seq::<ObjectReference>::empty()
                &&& after.list(rt, i).spec_head() is None
                &&& after.list(rt, i).spec_kind() == self.list(rt, i).spec_kind()
            } else {
                after.list(rt, i) == self.list(rt, i)
            }
    }

    /// Emptying lists leaves the registry well formed.
    pub proof fn lemma_cleared_keeps_wf(
        &self,
        after: &DiscoveredLists,
        kinds: Set<ReferenceType>,
        heap: &Heap,
    )
        requires
            self.wf(heap),
            self.cleared(after, kinds),
        ensures
            after.wf(heap),
    {
        assert forall|rt: ReferenceType, i: int| after.slot(rt, i) implies (#[trigger] after.list(
            rt,
            i,
        )).wf(heap) && after.list(rt, i).spec_kind() == rt by {
            assert(self.list(rt, i).wf(heap));
        }
        assert forall|rt1: ReferenceType, i1: int, rt2: ReferenceType, i2: int|
            #![trigger after.list(rt1, i1), after.list(rt2, i2)]
            after.slot(rt1, i1) && after.slot(rt2, i2) && (rt1 != rt2 || i1 != i2) implies disjoint(
            after.list(rt1, i1)@,
            after.list(rt2, i2)@,
        ) by {
            assert(disjoint(self.list(rt1, i1)@, self.list(rt2, i2)@));
        }
    }

    /// Makes one unit of work for each non-empty list of kind `rt`, in the
    /// order of the workers, and adds the units to `packets`. With `clear`,
    /// the lists are left empty.
    fn process_lists(
        &mut self,
        rt: ReferenceType,
        clear: bool,
        packets: &mut Vec<ProcessDiscoveredList>,
    )
        requires
            old(self).shaped(),
            rt.is_listed(),
        ensures
            final(self).shaped(),
            final(packets)@ == old(packets)@ + ProcessDiscoveredList::batch(
                old(self),
                rt,
                old(self).workers() as int,
            ),
            old(self).cleared(
                final(self),
                if clear {
                    set![rt]
                } else {
                    Set::empty()
                },
            ),
    {
        let workers: usize = self.soft.len();
        let mut i: usize = 0;
        proof {
            assert(packets@ + Seq::<ProcessDiscoveredList>::empty() =~= packets@);
        }
        while i < workers
            invariant
                i <= workers,
                rt.is_listed(),
                workers == old(self).workers(),
                self.workers() == workers,
                self.shaped(),
                old(self).shaped(),
                packets@ == old(packets)@ + ProcessDiscoveredList::batch(old(self), rt, i as int),
                forall|rt2: ReferenceType, j: int|
                    self.slot(rt2, j) && (rt2 != rt || j >= i) ==> #[trigger] self.list(rt2, j)
                        == old(self).list(rt2, j),
                forall|j: int|
                    0 <= j < i ==> if clear {
                        &&& (#[trigger] self.list(rt, j))@ == Seq::<ObjectReference>::empty()
                        &&& self.list(rt, j).spec_head() is None
                        &&& self.list(rt, j).spec_kind() == old(self).list(rt, j).spec_kind()
                    } else {
                        self.list(rt, j) == old(self).list(rt, j)
                    },
            decreases workers - i,
        {
            let ghost before = *self;
            let ghost collected = packets@;
            let list: DiscoveredList = *self.get_by_rt_and_index(rt, i);
            let head = list.head;
            if clear {
                self.put(
                    rt,
                    i,
                    DiscoveredList { head: None, rt: list.rt, nodes: Ghost(Seq::empty()) },
                );
            }
            if let Some(head) = head {
                let w = ProcessDiscoveredList {
                    list_index: i,
                    head,
                    rt,
                    nodes: Ghost(list.nodes@),
                };
                proof {
                    assert(list == old(self).list(rt, i as int));
                    assert(w == ProcessDiscoveredList::for_list(list, rt, i as int));
                }
                packets.push(w);
            }
            proof {
                let earlier = ProcessDiscoveredList::batch(old(self), rt, i as int);
                let now = ProcessDiscoveredList::batch(old(self), rt, i + 1);
                assert(list == old(self).list(rt, i as int));
                assert(packets@ =~= old(packets)@ + now);
                assert forall|rt2: ReferenceType, j: int|
                    self.slot(rt2, j) && (rt2 != rt || j >= i + 1) implies #[trigger] self.list(
                    rt2,
                    j,
                ) == old(self).list(rt2, j) by {
                    assert(before.list(rt2, j) == old(self).list(rt2, j));
                }
                assert forall|j: int| 0 <= j < i + 1 implies if clear {
                    &&& (#[trigger] self.list(rt, j))@ == Seq::<ObjectReference>::empty()
                    &&& self.list(rt, j).spec_head() is None
                    &&& self.list(rt, j).spec_kind() == old(self).list(rt, j).spec_kind()
                } else {
                    self.list(rt, j) == old(self).list(rt, j)
                } by {
                    if j < i {
                        let _ = before.list(rt, j);
                    }
                }
            }
            i = i + 1;
        }
    }

    /// Closes the discovery gate and makes the units of work for the soft,
    /// the weak and the final references, in that order. The lists of soft
    /// and weak references are left empty; those of final references keep
    /// their members until the units have run. A kind that `options` turns
    /// off gets no unit and keeps its lists.
    pub fn process_soft_weak_final_refs(&mut self, options: ReferenceOptions) -> (packets: Vec<
        ProcessDiscoveredList,
    >)
        requires
            old(self).shaped(),
        ensures
            final(self).shaped(),
            packets@ == (if options.no_reference_types {
                Seq::<ProcessDiscoveredList>::empty()
            } else {
                ProcessDiscoveredList::batch(
                    old(self),
                    ReferenceType::Soft,
                    old(self).workers() as int,
                ) + ProcessDiscoveredList::batch(
                    old(self),
                    ReferenceType::Weak,
                    old(self).workers() as int,
                )
            }) + (if options.no_finalizer {
                Seq::<ProcessDiscoveredList>::empty()
            } else {
                ProcessDiscoveredList::batch(
                    old(self),
                    ReferenceType::Final,
                    old(self).workers() as int,
                )
            }),
            old(self).cleared(
                final(self),
                if options.no_reference_types {
                    Set::empty()
                } else {
                    set![ReferenceType::Soft, ReferenceType::Weak]
                },
            ),
            forall|heap: &Heap| old(self).wf(heap) ==> final(self).wf(heap),
    {
        self.allow_discover.close();
        let mut packets: Vec<ProcessDiscoveredList> = Vec::new();
        let ghost workers = self.workers() as int;
        if !options.no_reference_types {
            self.process_lists(ReferenceType::Soft, true, &mut packets);
            let ghost soft_done = *self;
            self.process_lists(ReferenceType::Weak, true, &mut packets);
            proof {
                ProcessDiscoveredList::lemma_batch_same(
                    old(self),
                    &soft_done,
                    ReferenceType::Weak,
                    workers,
                );
                assert forall|rt: ReferenceType, i: int| old(self).slot(rt, i) implies if set![
                    ReferenceType::Soft,
                    ReferenceType::Weak,
                ].contains(rt) {
                    &&& (#[trigger] self.list(rt, i))@ == Seq::<ObjectReference>::empty()
                    &&& self.list(rt, i).spec_head() is None
                    &&& self.list(rt, i).spec_kind() == old(self).list(rt, i).spec_kind()
                } else {
                    self.list(rt, i) == old(self).list(rt, i)
                } by {
                    let _ = soft_done.list(rt, i);
                }
            }
        }
        let ghost cleared = *self;
        if !options.no_finalizer {
            self.process_lists(ReferenceType::Final, false, &mut packets);
            proof {
                ProcessDiscoveredList::lemma_batch_same(
                    old(self),
                    &cleared,
                    ReferenceType::Final,
                    workers,
                );
                assert forall|rt: ReferenceType, i: int| cleared.slot(rt, i) implies self.list(
                    rt,
                    i,
                ) == cleared.list(rt, i) by {}
            }
        }
        proof {
            let kinds = if options.no_reference_types {
                Set::empty()
            } else {
                set![ReferenceType::Soft, ReferenceType::Weak]
            };
            assert(old(self).cleared(self, kinds)) by {
                assert forall|rt: ReferenceType, i: int| old(self).slot(rt, i) implies if kinds.contains(
                    rt,
                ) {
                    &&& (#[trigger] self.list(rt, i))@ == Seq::<ObjectReference>::empty()
                    &&& self.list(rt, i).spec_head() is None
                    &&& self.list(rt, i).spec_kind() == old(self).list(rt, i).spec_kind()
                } else {
                    self.list(rt, i) == old(self).list(rt, i)
                } by {
                    let _ = cleared.list(rt, i);
                }
            }
            assert forall|heap: &Heap| old(self).wf(heap) implies self.wf(heap) by {
                old(self).lemma_cleared_keeps_wf(self, kinds, heap);
            }
        }
        packets
    }

    /// Makes the units of work that resurrect the final references, one for
    /// each non-empty list in the order of the workers, and leaves the lists
    /// empty. Not to be called when `options` turns finalizers off.
    pub fn resurrect_final_refs(&mut self, options: ReferenceOptions) -> (packets: Vec<
        ResurrectFinalizables,
    >)
        requires
            old(self).shaped(),
            !options.no_finalizer,
        ensures
            final(self).shaped(),
            packets@ == ResurrectFinalizables::batch(old(self), old(self).workers() as int),
            old(self).cleared(final(self), set![ReferenceType::Final]),
            forall|heap: &Heap| old(self).wf(heap) ==> final(self).wf(heap),
    {
        let workers: usize = self.soft.len();
        let mut packets: Vec<ResurrectFinalizables> = Vec::new();
        let mut i: usize = 0;
        while i < workers
            invariant
                i <= workers,
                workers == old(self).workers(),
                self.workers() == workers,
                self.shaped(),
                old(self).shaped(),
                packets@ == ResurrectFinalizables::batch(old(self), i as int),
                forall|rt2: ReferenceType, j: int|
                    self.slot(rt2, j) && (rt2 != ReferenceType::Final || j >= i)
                        ==> #[trigger] self.list(rt2, j) == old(self).list(rt2, j),
                forall|j: int|
                    0 <= j < i ==> {
                        &&& (#[trigger] self.list(ReferenceType::Final, j))@ == Seq::<
                            ObjectReference,
                        >::empty()
                        &&& self.list(ReferenceType::Final, j).spec_head() is None
                        &&& self.list(ReferenceType::Final, j).spec_kind() == old(self).list(
                            ReferenceType::Final,
                            j,
                        ).spec_kind()
                    },
            decreases workers - i,
        {
            let ghost before = *self;
            let list: DiscoveredList = *self.get_by_rt_and_index(ReferenceType::Final, i);
            let head = list.head;
            self.put(
                ReferenceType::Final,
                i,
                DiscoveredList { head: None, rt: list.rt, nodes: Ghost(Seq::empty()) },
            );
            if let Some(head) = head {
                let w = ResurrectFinalizables { list_index: i, head, nodes: Ghost(list.nodes@) };
                proof {
                    assert(list == old(self).list(ReferenceType::Final, i as int));
                    assert(w == ResurrectFinalizables::for_list(list, i as int));
                }
                packets.push(w);
            }
            proof {
                assert(list == old(self).list(ReferenceType::Final, i as int));
                assert(packets@ =~= ResurrectFinalizables::batch(old(self), i + 1));
                assert forall|rt2: ReferenceType, j: int|
                    self.slot(rt2, j) && (rt2 != ReferenceType::Final || j >= i + 1)
                    implies #[trigger] self.list(rt2, j) == old(self).list(rt2, j) by {
                    assert(before.list(rt2, j) == old(self).list(rt2, j));
                }
                assert forall|j: int| 0 <= j < i + 1 implies {
                    &&& (#[trigger] self.list(ReferenceType::Final, j))@ == Seq::<
                        ObjectReference,
                    >::empty()
                    &&& self.list(ReferenceType::Final, j).spec_head() is None
                    &&& self.list(ReferenceType::Final, j).spec_kind() == old(self).list(
                        ReferenceType::Final,
                        j,
                    ).spec_kind()
                } by {
                    if j < i {
                        let _ = before.list(ReferenceType::Final, j);
                    }
                }
            }
            i = i + 1;
        }
        proof {
            assert forall|heap: &Heap| old(self).wf(heap) implies self.wf(heap) by {
                old(self).lemma_cleared_keeps_wf(self, set![ReferenceType::Final], heap);
            }
        }
        packets
    }

    /// Makes the units of work for the phantom references, one for each
    /// non-empty list in the order of the workers, and leaves the lists
    /// empty. Not to be called when `options` turns reference types off.
    pub fn process_phantom_refs(&mut self, options: ReferenceOptions) -> (packets: Vec<
        ProcessDiscoveredList,
    >)
        requires
            old(self).shaped(),
            !options.no_reference_types,
        ensures
            final(self).shaped(),
            packets@ == ProcessDiscoveredList::batch(
                old(self),
                ReferenceType::Phantom,
                old(self).workers() as int,
            ),
            old(self).cleared(final(self), set![ReferenceType::Phantom]),
            forall|heap: &Heap| old(self).wf(heap) ==> final(self).wf(heap),
    {
        let mut packets: Vec<ProcessDiscoveredList> = Vec::new();
        self.process_lists(ReferenceType::Phantom, true, &mut packets);
        proof {
            assert(Seq::<ProcessDiscoveredList>::empty() + packets@ =~= packets@);
            assert forall|heap: &Heap| old(self).wf(heap) implies self.wf(heap) by {
                old(self).lemma_cleared_keeps_wf(self, set![ReferenceType::Phantom], heap);
            }
        }
        packets
    }
}

/// The hooks through which the tracing framework would read and clear
/// referents itself. The lists of this module do that work, so the hooks
/// that remain have nothing to do.
pub struct VMReferenceGlue {}

impl VMReferenceGlue {
    /// References are handed to the runtime through the pending list, not here.
    pub fn enqueue_references(_references: &Vec<ObjectReference>) {
    }

    /// Referents are cleared while the lists are processed, not here.
    pub fn clear_referent(_new_reference: ObjectReference) {
    }
}

} // verus!
