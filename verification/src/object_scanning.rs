//! What the trace does when it comes upon a reference object: discover it,
//! or treat its two reference fields as ordinary strong fields.

use vstd::prelude::*;
use crate::abi::{
    Field, InstanceRefKlass, KlassID, ObjectReference, OopDesc, ReferenceType, Slot,
};
use crate::heap::Heap;
use crate::reference_glue::{DiscoveredLists, ReferenceOptions};

verus! {

/// What the trace hands to a scan: the slots that are to be traced as strong
/// fields are collected here.
pub struct SlotVisitor {
    pub slots: Vec<Slot>,
    pub discover_references: bool,
}

impl SlotVisitor {
    /// A visitor that has seen no slot yet.
    pub fn new(discover_references: bool) -> (visitor: Self)
        ensures
            visitor.slots@ == Seq::<Slot>::empty(),
            visitor.discover_references == discover_references,
    {
        Self { slots: Vec::new(), discover_references }
    }

    /// Whether the trace wants reference objects discovered.
    pub fn should_discover_references(&self) -> (b: bool)
        ensures
            b == self.discover_references,
    {
        self.discover_references
    }

    /// Takes note of a slot that is to be traced.
    pub fn visit_slot(&mut self, slot: Slot)
        ensures
            final(self).slots@ == old(self).slots@.push(slot),
            final(self).discover_references == old(self).discover_references,
    {
        self.slots.push(slot);
    }
}

/// The kind under whose rules a reference of kind `rt` is discovered.
pub open spec fn effective_kind(rt: ReferenceType) -> ReferenceType {
    if rt == ReferenceType::Other {
        ReferenceType::Weak
    } else {
        rt
    }
}

/// Whether references of kind `rt` are to be discovered at all.
pub open spec fn discovery_wanted(
    rt: ReferenceType,
    disable_discovery: bool,
    options: ReferenceOptions,
) -> bool {
    &&& !disable_discovery
    &&& !(options.no_finalizer && effective_kind(rt) == ReferenceType::Final)
    &&& !(options.no_reference_types && effective_kind(rt) != ReferenceType::Final)
}

/// Whether `oop` is discovered, given that the discovery gate said `open`:
/// the discovery gate is open, the referent is there and the trace has not
/// reached it, and the reference is in no list yet.
pub open spec fn discovery_due(heap: &Heap, open: bool, oop: ObjectReference) -> bool {
    &&& open
    &&& heap.referent(oop) is Some
    &&& !heap.reachable(heap.referent(oop).unwrap())
    &&& heap.discovered(oop) is None
}

/// The heap once `oop` has been put at the head of a list whose head was
/// `head`: its `discovered` field holds the old head, or `oop` itself where
/// the list was empty.
pub open spec fn discovered_into(
    heap: &Heap,
    head: Option<ObjectReference>,
    oop: ObjectReference,
) -> Seq<OopDesc> {
    heap@.update(
        oop.addr as int,
        heap.object(oop).with_discovered(
            Some(
                match head {
                    Some(h) => h,
                    None => oop,
                },
            ),
        ),
    )
}

/// What a discovery of `oop` into the list of kind `rt` of worker `worker`
/// has done: `oop` is the new head of that list, in front of the members it
/// had; its `discovered` field holds the old head, or `oop` itself; and
/// every other list is as it was.
pub open spec fn discovered_by(
    lists0: &DiscoveredLists,
    heap0: &Heap,
    lists: &DiscoveredLists,
    heap: &Heap,
    rt: ReferenceType,
    worker: int,
    oop: ObjectReference,
) -> bool {
    &&& lists.list(rt, worker)@ == seq![oop] + lists0.list(rt, worker)@
    &&& lists.list(rt, worker).spec_head() == Some(oop)
    &&& heap@ == discovered_into(heap0, lists0.list(rt, worker).spec_head(), oop)
    &&& lists0.same_but(lists, rt, worker)
}

/// Nothing was discovered: the heap and every list are as they were.
pub open spec fn nothing_discovered(
    lists0: &DiscoveredLists,
    heap0: &Heap,
    lists: &DiscoveredLists,
    heap: &Heap,
) -> bool {
    &&& heap@ == heap0@
    &&& lists0.same_lists(lists)
}

impl InstanceRefKlass {
    /// Whether references of kind `rt` are to be discovered at all: not when
    /// the trace has discovery turned off, and not when `options` turns the
    /// kind off.
    pub fn should_discover_refs(
        rt: ReferenceType,
        disable_discovery: bool,
        options: ReferenceOptions,
    ) -> (wanted: bool)
        ensures
            wanted == discovery_wanted(rt, disable_discovery, options),
    {
        let mut rt = rt;
        if rt == ReferenceType::Other {
            rt = ReferenceType::Weak;
        }
        if disable_discovery {
            return false;
        }
        if options.no_finalizer && rt == ReferenceType::Final {
            return false;
        }
        if options.no_reference_types && rt != ReferenceType::Final {
            return false;
        }
        true
    }

    /// Hands both reference fields of `oop` to the trace, as if they were
    /// ordinary fields: first the referent, then the link.
    pub fn process_ref_as_strong(oop: ObjectReference, closure: &mut SlotVisitor)
        ensures
            final(closure).slots@ == old(closure).slots@.push(
                Slot { object: oop, field: Field::Referent },
            ).push(Slot { object: oop, field: Field::Discovered }),
            final(closure).discover_references == old(closure).discover_references,
    {
        let referent_addr = Self::referent_address(oop);
        closure.visit_slot(referent_addr);
        let discovered_addr = Self::discovered_address(oop);
        closure.visit_slot(discovered_addr);
    }

    /// Discovers the reference object `oop` of kind `rt` for worker
    /// `worker`, given that the discovery gate said `open`.
    ///
    /// Nothing is discovered, and `false` is returned, when the discovery gate
    /// is closed, when the referent is empty or already reached, or when the
    /// reference is in a list already. Otherwise the reference becomes the
    /// head of the worker's list, and `true` is returned; the caller then
    /// tells the trace to keep reference and referent alive until the list
    /// is processed.
    pub fn discover_reference_when(
        open: bool,
        lists: &mut DiscoveredLists,
        heap: &mut Heap,
        worker: usize,
        oop: ObjectReference,
        rt: ReferenceType,
    ) -> (discovered: bool)
        requires
            old(heap).wf(),
            old(lists).wf(old(heap)),
            old(lists).slot(rt, worker as int),
            old(heap).settled(oop),
        ensures
            final(heap).wf(),
            final(lists).wf(final(heap)),
            discovered == discovery_due(old(heap), open, oop),
            discovered ==> discovered_by(
                old(lists),
                old(heap),
                final(lists),
                final(heap),
                rt,
                worker as int,
                oop,
            ),
            !discovered ==> nothing_discovered(old(lists), old(heap), final(lists), final(heap)),
            old(lists).same_but(final(lists), rt, worker as int),
            old(heap).evolves(final(heap), seq![oop]),
    {
        proof {
            assert(seq![oop][0] == oop);
        }
        // Do not discover new refs during reference processing.
        if !open {
            return false;
        }
        // Do not discover if the referent is live.
        let Some(referent) = heap.load_referent(oop) else {
            return false;
        };
        proof {
            assert(heap.object_ok(oop));
        }
        // Skip live or null referents
        if heap.is_reachable(referent) {
            return false;
        }
        let reference: ObjectReference = oop;
        if rt == ReferenceType::Final && lists.is_discovered(heap, reference) {
            return false;
        }
        // Add to reference list
        lists.discover_when(true, heap, worker, reference, referent, rt)
    }

    /// Discovers the reference object `oop` of kind `rt` for worker `worker`
    /// if the discovery gate stands open. It is read once; see
    /// [`Self::discover_reference_when`] for what follows from what it said.
    pub fn discover_reference(
        lists: &mut DiscoveredLists,
        heap: &mut Heap,
        worker: usize,
        oop: ObjectReference,
        rt: ReferenceType,
    ) -> (discovered: bool)
        requires
            old(heap).wf(),
            old(lists).wf(old(heap)),
            old(lists).slot(rt, worker as int),
            old(heap).settled(oop),
        ensures
            final(heap).wf(),
            final(lists).wf(final(heap)),
            discovered ==> discovery_due(old(heap), true, oop),
            discovered ==> discovered_by(
                old(lists),
                old(heap),
                final(lists),
                final(heap),
                rt,
                worker as int,
                oop,
            ),
            !discovered ==> nothing_discovered(old(lists), old(heap), final(lists), final(heap)),
            old(lists).same_but(final(lists), rt, worker as int),
            old(heap).evolves(final(heap), seq![oop]),
    {
        let open = lists.allow_discover();
        Self::discover_reference_when(open, lists, heap, worker, oop, rt)
    }

    /// Scans the reference fields of the reference object `oop`, given that
    /// the discovery gate said `open`.
    ///
    /// Where discovery is wanted and due, the reference is discovered and
    /// no slot is handed to the trace. Everywhere else nothing is
    /// discovered, and both reference fields are handed to the trace as
    /// strong fields, first the referent, then the link. A trace that
    /// declines to process some reference at all does not scan it, but hands
    /// its fields over with [`Self::process_ref_as_strong`].
    pub fn oop_iterate_when(
        open: bool,
        lists: &mut DiscoveredLists,
        heap: &mut Heap,
        worker: usize,
        oop: ObjectReference,
        closure: &mut SlotVisitor,
        options: ReferenceOptions,
    )
        requires
            old(heap).wf(),
            old(lists).wf(old(heap)),
            old(heap).settled(oop),
            old(lists).slot(old(heap).object(oop).reference_type, worker as int),
        ensures
            final(heap).wf(),
            final(lists).wf(final(heap)),
            final(closure).discover_references == old(closure).discover_references,
            old(heap).evolves(final(heap), seq![oop]),
            final(closure).slots@ == old(closure).slots@ <==> discovery_wanted(
                old(heap).object(oop).reference_type,
                !old(closure).discover_references,
                options,
            ) && discovery_due(old(heap), open, oop),
            final(closure).slots@ == old(closure).slots@ ==> discovered_by(
                old(lists),
                old(heap),
                final(lists),
                final(heap),
                old(heap).object(oop).reference_type,
                worker as int,
                oop,
            ),
            final(closure).slots@ != old(closure).slots@ ==> nothing_discovered(
                old(lists),
                old(heap),
                final(lists),
                final(heap),
            ) && final(closure).slots@ == old(closure).slots@.push(
                Slot { object: oop, field: Field::Referent },
            ).push(Slot { object: oop, field: Field::Discovered }),
    {
        let rt = heap.get(oop).reference_type;
        let disable_discovery = !closure.should_discover_references();
        proof {
            assert(seq![oop][0] == oop);
        }
        if Self::should_discover_refs(rt, disable_discovery, options) {
            if !Self::discover_reference_when(open, lists, heap, worker, oop, rt) {
                Self::process_ref_as_strong(oop, closure)
            }
        } else {
            Self::process_ref_as_strong(oop, closure);
        }
        proof {
            if closure.slots@ != old(closure).slots@ {
                assert(closure.slots@.len() == old(closure).slots@.len() + 2);
            }
        }
    }

    /// Scans the reference fields of the reference object `oop`: the
    /// reference is discovered where that is wanted and possible, and its
    /// fields are handed to the trace as strong fields where it is not. The
    /// discovery gate is read once; see [`Self::oop_iterate_when`] for what
    /// follows from what it said.
    pub fn oop_iterate(
        lists: &mut DiscoveredLists,
        heap: &mut Heap,
        worker: usize,
        oop: ObjectReference,
        closure: &mut SlotVisitor,
        options: ReferenceOptions,
    )
        requires
            old(heap).wf(),
            old(lists).wf(old(heap)),
            old(heap).settled(oop),
            old(lists).slot(old(heap).object(oop).reference_type, worker as int),
        ensures
            final(heap).wf(),
            final(lists).wf(final(heap)),
            final(closure).discover_references == old(closure).discover_references,
            old(heap).evolves(final(heap), seq![oop]),
            scanned_as_reference(
                old(lists),
                old(heap),
                final(lists),
                final(heap),
                old(closure).discover_references,
                options,
                worker as int,
                oop,
                old(closure).slots@,
                final(closure).slots@,
            ),
            !(discovery_wanted(
                old(heap).object(oop).reference_type,
                !old(closure).discover_references,
                options,
            ) && discovery_due(old(heap), true, oop)) ==> final(closure).slots@ != old(
                closure,
            ).slots@,
    {
        let open = lists.allow_discover();
        Self::oop_iterate_when(open, lists, heap, worker, oop, closure, options)
    }
}

/// What a scan of the reference object `oop` has done, whatever the
/// discovery gate said. Either the reference was discovered: discovery was
/// wanted, and due with the discovery gate open, the reference is the new
/// head of the worker's list, and no slot was handed to the trace. Or it was
/// not: the heap and the lists are as they were, and both reference fields
/// were handed to the trace.
pub open spec fn scanned_as_reference(
    lists0: &DiscoveredLists,
    before: &Heap,
    lists: &DiscoveredLists,
    after: &Heap,
    discover_references: bool,
    options: ReferenceOptions,
    worker: int,
    oop: ObjectReference,
    slots_before: Seq<Slot>,
    slots_after: Seq<Slot>,
) -> bool {
    ||| {
        &&& slots_after == slots_before
        &&& discovery_wanted(before.object(oop).reference_type, !discover_references, options)
        &&& discovery_due(before, true, oop)
        &&& discovered_by(
            lists0,
            before,
            lists,
            after,
            before.object(oop).reference_type,
            worker,
            oop,
        )
    }
    ||| {
        &&& slots_after == slots_before.push(Slot { object: oop, field: Field::Referent }).push(
            Slot { object: oop, field: Field::Discovered },
        )
        &&& nothing_discovered(lists0, before, lists, after)
    }
}

/// Scans the object `object` for the trace, given that the discovery gate
/// said `open`. A reference object is scanned as
/// [`InstanceRefKlass::oop_iterate_when`] says; an object of any other class
/// has no reference fields of its own for this module to look at.
pub fn scan_object_when(
    open: bool,
    lists: &mut DiscoveredLists,
    heap: &mut Heap,
    worker: usize,
    object: ObjectReference,
    closure: &mut SlotVisitor,
    options: ReferenceOptions,
)
    requires
        old(heap).wf(),
        old(lists).wf(old(heap)),
        old(heap).settled(object),
        old(heap).object(object).klass == KlassID::InstanceRef ==> old(lists).slot(
            old(heap).object(object).reference_type,
            worker as int,
        ),
    ensures
        final(heap).wf(),
        final(lists).wf(final(heap)),
        final(closure).discover_references == old(closure).discover_references,
        old(heap).evolves(final(heap), seq![object]),
        final(closure).slots@ == old(closure).slots@ <==> old(heap).object(object).klass
            != KlassID::InstanceRef || (discovery_wanted(
            old(heap).object(object).reference_type,
            !old(closure).discover_references,
            options,
        ) && discovery_due(old(heap), open, object)),
        final(closure).slots@ == old(closure).slots@ && old(heap).object(object).klass
            == KlassID::InstanceRef ==> discovered_by(
            old(lists),
            old(heap),
            final(lists),
            final(heap),
            old(heap).object(object).reference_type,
            worker as int,
            object,
        ),
        final(closure).slots@ != old(closure).slots@ ==> final(closure).slots@ == old(
            closure,
        ).slots@.push(Slot { object, field: Field::Referent }).push(
            Slot { object, field: Field::Discovered },
        ),
        final(closure).slots@ != old(closure).slots@ || old(heap).object(object).klass
            != KlassID::InstanceRef ==> nothing_discovered(
            old(lists),
            old(heap),
            final(lists),
            final(heap),
        ),
{
    let klass_id = heap.get(object).klass;
    proof {
        assert(seq![object][0] == object);
    }
    match klass_id {
        KlassID::InstanceRef => {
            InstanceRefKlass::oop_iterate_when(open, lists, heap, worker, object, closure, options);
        },
        _ => {},
    }
}

/// Scans the object `object` for the trace. The discovery gate is read once;
/// see [`scan_object_when`] for what follows from what it said.
pub fn scan_object(
    lists: &mut DiscoveredLists,
    heap: &mut Heap,
    worker: usize,
    object: ObjectReference,
    closure: &mut SlotVisitor,
    options: ReferenceOptions,
)
    requires
        old(heap).wf(),
        old(lists).wf(old(heap)),
        old(heap).settled(object),
        old(heap).object(object).klass == KlassID::InstanceRef ==> old(lists).slot(
            old(heap).object(object).reference_type,
            worker as int,
        ),
    ensures
        final(heap).wf(),
        final(lists).wf(final(heap)),
        final(closure).discover_references == old(closure).discover_references,
        old(heap).evolves(final(heap), seq![object]),
        old(heap).object(object).klass == KlassID::InstanceRef ==> scanned_as_reference(
            old(lists),
            old(heap),
            final(lists),
            final(heap),
            old(closure).discover_references,
            options,
            worker as int,
            object,
            old(closure).slots@,
            final(closure).slots@,
        ) && (!(discovery_wanted(
            old(heap).object(object).reference_type,
            !old(closure).discover_references,
            options,
        ) && discovery_due(old(heap), true, object)) ==> final(closure).slots@ != old(
            closure,
        ).slots@),
        old(heap).object(object).klass != KlassID::InstanceRef ==> final(heap)@ == old(heap)@
            && old(lists).same_lists(final(lists)) && final(closure).slots@ == old(
            closure,
        ).slots@,
{
    let open = lists.allow_discover();
    scan_object_when(open, lists, heap, worker, object, closure, options)
}

/// Whether `oop` is an array of references.
pub fn is_obj_array(heap: &Heap, oop: ObjectReference) -> (b: bool)
    requires
        heap.contains(oop),
    ensures
        b == (heap.object(oop).klass == KlassID::ObjArray),
{
    heap.get(oop).klass == KlassID::ObjArray
}

/// Whether `oop` is an array of primitive values.
pub fn is_val_array(heap: &Heap, oop: ObjectReference) -> (b: bool)
    requires
        heap.contains(oop),
    ensures
        b == (heap.object(oop).klass == KlassID::TypeArray),
{
    heap.get(oop).klass == KlassID::TypeArray
}

} // verus!
