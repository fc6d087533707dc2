//! The scanning services that the tracing framework asks of the runtime
//! binding.

use vstd::prelude::*;
use crate::abi::{KlassID, ObjectReference};
use crate::heap::Heap;
use crate::object_scanning::{
    discovery_due, discovery_wanted, scanned_as_reference, SlotVisitor,
};
use crate::reference_glue::{DiscoveredLists, ReferenceOptions};

verus! {

/// The scanning services.
pub struct VMScanning {}

impl VMScanning {
    /// Scans `object` on behalf of worker `worker`.
    pub fn scan_object(
        lists: &mut DiscoveredLists,
        heap: &mut Heap,
        worker: usize,
        object: ObjectReference,
        closure: &mut SlotVisitor,
        options: ReferenceOptions,
    )
        requires
            old(heap).wf(),
            old(lists).wf(old(heap)),
            old(heap).settled(object),
            old(heap).object(object).klass == KlassID::InstanceRef ==> old(lists).slot(
                old(heap).object(object).reference_type,
                worker as int,
            ),
        ensures
            final(heap).wf(),
            final(lists).wf(final(heap)),
            final(closure).discover_references == old(closure).discover_references,
            old(heap).evolves(final(heap), seq![object]),
            old(heap).object(object).klass == KlassID::InstanceRef ==> scanned_as_reference(
                old(lists),
                old(heap),
                final(lists),
                final(heap),
                old(closure).discover_references,
                options,
                worker as int,
                object,
                old(closure).slots@,
                final(closure).slots@,
            ) && (!(discovery_wanted(
                old(heap).object(object).reference_type,
                !old(closure).discover_references,
                options,
            ) && discovery_due(old(heap), true, object)) ==> final(closure).slots@ != old(
                closure,
            ).slots@),
            old(heap).object(object).klass != KlassID::InstanceRef ==> final(heap)@ == old(heap)@
                && old(lists).same_lists(final(lists)) && final(closure).slots@ == old(
                closure,
            ).slots@,
    {
        crate::object_scanning::scan_object(lists, heap, worker, object, closure, options)
    }

    /// Whether `o` is an array of references.
    pub fn is_obj_array(heap: &Heap, o: ObjectReference) -> (b: bool)
        requires
            heap.contains(o),
        ensures
            b == (heap.object(o).klass == KlassID::ObjArray),
    {
        crate::object_scanning::is_obj_array(heap, o)
    }

    /// Whether `o` is an array of primitive values.
    pub fn is_val_array(heap: &Heap, o: ObjectReference) -> (b: bool)
        requires
            heap.contains(o),
        ensures
            b == (heap.object(o).klass == KlassID::TypeArray),
    {
        crate::object_scanning::is_val_array(heap, o)
    }
}

} // verus!
