//! The managed heap as the reference machinery sees it: an arena of objects
//! addressed by index, with the two reference fields of each object, the
//! forwarding pointers that a relocating collector leaves behind, and the
//! two operations the active trace offers.

use vstd::prelude::*;
use crate::abi::{Field, ObjectReference, OopDesc, Slot};

verus! {

/// The arena. An object's address is its index; an address that was once
/// handed out stays valid for the lifetime of the heap.
pub struct Heap {
    objects: Vec<OopDesc>,
}

impl View for Heap {
    type V = Seq<OopDesc>;

    closed spec fn view(&self) -> Seq<OopDesc> {
        self.objects@
    }
}

impl Heap {
    /// `o` is the address of an object of this heap.
    pub open spec fn contains(&self, o: ObjectReference) -> bool {
        o.addr < self@.len()
    }

    /// The object at `o`.
    pub open spec fn object(&self, o: ObjectReference) -> OopDesc {
        self@[o.addr as int]
    }

    pub open spec fn referent(&self, o: ObjectReference) -> Option<ObjectReference> {
        self.object(o).referent
    }

    pub open spec fn discovered(&self, o: ObjectReference) -> Option<ObjectReference> {
        self.object(o).discovered
    }

    pub open spec fn forwarded(&self, o: ObjectReference) -> Option<ObjectReference> {
        self.object(o).forwarding
    }

    /// The trace has reached `o`: it is marked, or it has been moved.
    pub open spec fn reachable(&self, o: ObjectReference) -> bool {
        self.object(o).marked || self.object(o).forwarding is Some
    }

    /// `o` is reached and is where its object now lives.
    pub open spec fn settled(&self, o: ObjectReference) -> bool {
        self.contains(o) && self.object(o).marked && self.object(o).forwarding is None
    }

    /// The address under which the object once found at `o` lives now.
    pub open spec fn resolve(&self, o: ObjectReference) -> ObjectReference {
        match self.forwarded(o) {
            Some(to) => to,
            None => o,
        }
    }

    /// A field value that is empty or names an object of this heap.
    pub open spec fn admits(&self, field: Option<ObjectReference>) -> bool {
        field is Some ==> self.contains(field.unwrap())
    }

    /// The fields of `o` stay inside the heap, and a forwarding pointer leads
    /// to a settled object.
    pub open spec fn object_ok(&self, o: ObjectReference) -> bool {
        &&& self.admits(self.referent(o))
        &&& self.admits(self.discovered(o))
        &&& self.forwarded(o) is Some ==> self.settled(self.forwarded(o).unwrap())
    }

    /// The heap's invariant: every object is `object_ok`.
    pub open spec fn wf(&self) -> bool {
        forall|o: ObjectReference| self.contains(o) ==> #[trigger] self.object_ok(o)
    }

    /// How a heap may change while references are discovered and processed.
    /// No object disappears; the header of an object the trace has reached is
    /// frozen; a reached object outside `touched` is left exactly as it was,
    /// and no object outside `touched` has a reference field rewritten.
    pub open spec fn evolves(&self, later: &Heap, touched: Seq<ObjectReference>) -> bool {
        &&& self@.len() <= later@.len()
        &&& forall|x: ObjectReference| #![trigger later.object(x)]
            self.contains(x) ==> {
                &&& self.reachable(x) ==> later.forwarded(x) == self.forwarded(x)
                    && later.object(x).marked == self.object(x).marked
                &&& self.reachable(x) && !touched.contains(x) ==> later.object(x) == self.object(
                    x,
                )
                &&& !touched.contains(x) ==> later.referent(x) == self.referent(x)
                    && later.discovered(x) == self.discovered(x)
            }
    }

    /// What `trace_object(o)` returns.
    pub open spec fn trace_target(&self, o: ObjectReference) -> ObjectReference {
        if self.forwarded(o) is Some {
            self.forwarded(o).unwrap()
        } else if self.object(o).marked || !self.object(o).relocates || self@.len()
            >= usize::MAX {
            o
        } else {
            ObjectReference { addr: self@.len() as usize }
        }
    }

    /// The heap after `trace_object(o)`.
    pub open spec fn traced(&self, o: ObjectReference) -> Seq<OopDesc> {
        if self.reachable(o) {
            self@
        } else if !self.object(o).relocates || self@.len() >= usize::MAX {
            self@.update(o.addr as int, self.object(o).as_marked())
        } else {
            self@.update(o.addr as int, self.object(o).as_forwarded(self.trace_target(o))).push(
                self.object(o).as_copy(),
            )
        }
    }

    /// An empty heap.
    pub fn new() -> (h: Heap)
        ensures
            h@ == Seq::<OopDesc>::empty(),
            h.wf(),
    {
        Heap { objects: Vec::new() }
    }

    /// The number of addresses handed out so far.
    pub fn len(&self) -> (n: usize)
        ensures
            n == self@.len(),
    {
        self.objects.len()
    }

    /// Whether `o` is the address of an object of this heap.
    pub fn is_object(&self, o: ObjectReference) -> (b: bool)
        ensures
            b == self.contains(o),
    {
        o.addr < self.objects.len()
    }

    /// Places `object` at the next free address and returns that address.
    /// A new object is unreached, unmoved and in no list.
    pub fn allocate(&mut self, object: OopDesc) -> (r: ObjectReference)
        requires
            old(self).wf(),
            old(self).admits(object.referent),
            object.discovered is None,
            object.forwarding is None,
        ensures
            final(self).wf(),
            final(self)@ == old(self)@.push(object),
            r.addr == old(self)@.len(),
            old(self).evolves(final(self), Seq::empty()),
    {
        let addr: usize = self.objects.len();
        self.objects.push(object);
        proof {
            assert forall|o: ObjectReference| self.contains(o) implies #[trigger] self.object_ok(
                o,
            ) by {
                if o.addr < addr {
                    assert(old(self).object_ok(o));
                }
            }
        }
        ObjectReference { addr }
    }

    /// A copy of the object at `o`.
    pub fn get(&self, o: ObjectReference) -> (object: OopDesc)
        requires
            self.contains(o),
        ensures
            object == self.object(o),
    {
        self.objects[o.addr]
    }

    /// Reads the `referent` field of `o`.
    pub fn load_referent(&self, o: ObjectReference) -> (referent: Option<ObjectReference>)
        requires
            self.contains(o),
        ensures
            referent == self.referent(o),
    {
        self.objects[o.addr].referent
    }

    /// Writes the `referent` field of `o`.
    pub fn store_referent(&mut self, o: ObjectReference, referent: Option<ObjectReference>)
        requires
            old(self).wf(),
            old(self).contains(o),
            old(self).admits(referent),
        ensures
            final(self).wf(),
            final(self)@ == old(self)@.update(
                o.addr as int,
                old(self).object(o).with_referent(referent),
            ),
            old(self).evolves(final(self), seq![o]),
    {
        let mut object: OopDesc = self.objects[o.addr];
        object.referent = referent;
        self.objects.set(o.addr, object);
        proof {
            assert forall|x: ObjectReference| self.contains(x) implies #[trigger] self.object_ok(
                x,
            ) by {
                assert(old(self).object_ok(x));
                if old(self).forwarded(x) is Some {
                    assert(old(self).object_ok(old(self).forwarded(x).unwrap()));
                }
            }
            assert(seq![o][0] == o);
        }
    }

    /// Reads the `discovered` field of `o`.
    pub fn load_discovered(&self, o: ObjectReference) -> (discovered: Option<ObjectReference>)
        requires
            self.contains(o),
        ensures
            discovered == self.discovered(o),
    {
        self.objects[o.addr].discovered
    }

    /// Writes the `discovered` field of `o`.
    pub fn store_discovered(&mut self, o: ObjectReference, discovered: Option<ObjectReference>)
        requires
            old(self).wf(),
            old(self).contains(o),
            old(self).admits(discovered),
        ensures
            final(self).wf(),
            final(self)@ == old(self)@.update(
                o.addr as int,
                old(self).object(o).with_discovered(discovered),
            ),
            old(self).evolves(final(self), seq![o]),
    {
        let mut object: OopDesc = self.objects[o.addr];
        object.discovered = discovered;
        self.objects.set(o.addr, object);
        proof {
            assert forall|x: ObjectReference| self.contains(x) implies #[trigger] self.object_ok(
                x,
            ) by {
                assert(old(self).object_ok(x));
                if old(self).forwarded(x) is Some {
                    assert(old(self).object_ok(old(self).forwarded(x).unwrap()));
                }
            }
            assert(seq![o][0] == o);
        }
    }

    /// Reads the field at `slot`.
    pub fn load(&self, slot: Slot) -> (value: Option<ObjectReference>)
        requires
            self.contains(slot.object),
        ensures
            value == self.object(slot.object).field(slot.field),
    {
        match slot.field {
            Field::Referent => self.load_referent(slot.object),
            Field::Discovered => self.load_discovered(slot.object),
        }
    }

    /// Writes the field at `slot`.
    pub fn store(&mut self, slot: Slot, value: Option<ObjectReference>)
        requires
            old(self).wf(),
            old(self).contains(slot.object),
            old(self).admits(value),
        ensures
            final(self).wf(),
            final(self)@ == old(self)@.update(
                slot.object.addr as int,
                old(self).object(slot.object).with_field(slot.field, value),
            ),
            old(self).evolves(final(self), seq![slot.object]),
    {
        match slot.field {
            Field::Referent => self.store_referent(slot.object, value),
            Field::Discovered => self.store_discovered(slot.object, value),
        }
    }

    /// Replaces the `discovered` field of `o` by `new` if it holds `current`.
    /// Returns the value found, as `Ok` when the field was replaced and as
    /// `Err` when it was left alone.
    pub fn compare_exchange_discovered(
        &mut self,
        o: ObjectReference,
        current: Option<ObjectReference>,
        new: Option<ObjectReference>,
    ) -> (r: Result<Option<ObjectReference>, Option<ObjectReference>>)
        requires
            old(self).wf(),
            old(self).contains(o),
            old(self).admits(new),
        ensures
            final(self).wf(),
            old(self).discovered(o) == current ==> r == Ok::<
                Option<ObjectReference>,
                Option<ObjectReference>,
            >(current) && final(self)@ == old(self)@.update(
                o.addr as int,
                old(self).object(o).with_discovered(new),
            ),
            old(self).discovered(o) != current ==> r == Err::<
                Option<ObjectReference>,
                Option<ObjectReference>,
            >(old(self).discovered(o)) && final(self)@ == old(self)@,
            old(self).evolves(final(self), seq![o]),
    {
        let found: Option<ObjectReference> = self.objects[o.addr].discovered;
        if found == current {
            self.store_discovered(o, new);
            Ok(found)
        } else {
            Err(found)
        }
    }

    /// The forwarding pointer of `o`: where its object lives now, if the
    /// collector has moved it.
    pub fn get_forwarded_object(&self, o: ObjectReference) -> (to: Option<ObjectReference>)
        requires
            self.contains(o),
        ensures
            to == self.forwarded(o),
    {
        self.objects[o.addr].forwarding
    }

    /// Whether the trace has reached `o`.
    pub fn is_reachable(&self, o: ObjectReference) -> (b: bool)
        requires
            self.contains(o),
        ensures
            b == self.reachable(o),
    {
        let object: OopDesc = self.objects[o.addr];
        object.marked || object.forwarding.is_some()
    }

    /// Traces `o` and returns the address under which its object lives from
    /// now on. An object that was already reached is left alone. One that is
    /// reached for the first time is marked where it stands, or evacuated to
    /// a fresh address with a forwarding pointer left behind.
    pub fn trace_object(&mut self, o: ObjectReference) -> (to: ObjectReference)
        requires
            old(self).wf(),
            old(self).contains(o),
        ensures
            final(self).wf(),
            final(self)@ == old(self).traced(o),
            to == old(self).trace_target(o),
            to == final(self).resolve(o),
            final(self).settled(to),
            old(self).reachable(o) ==> to == old(self).resolve(o),
            old(self).evolves(final(self), Seq::empty()),
    {
        let object: OopDesc = self.objects[o.addr];
        proof {
            assert(old(self).object_ok(o));
        }
        if let Some(to) = object.forwarding {
            return to;
        }
        if object.marked {
            return o;
        }
        let fresh: usize = self.objects.len();
        if !object.relocates || fresh >= usize::MAX {
            let mut marked: OopDesc = object;
            marked.marked = true;
            self.objects.set(o.addr, marked);
            proof {
                assert forall|x: ObjectReference| self.contains(x) implies #[trigger] self.object_ok(
                    x,
                ) by {
                    assert(old(self).object_ok(x));
                    if old(self).forwarded(x) is Some {
                        assert(old(self).object_ok(old(self).forwarded(x).unwrap()));
                    }
                }
            }
            return o;
        }
        let to: ObjectReference = ObjectReference { addr: fresh };
        let mut copy: OopDesc = object;
        copy.marked = true;
        copy.relocates = false;
        let mut left: OopDesc = object;
        left.forwarding = Some(to);
        self.objects.set(o.addr, left);
        self.objects.push(copy);
        proof {
            assert forall|x: ObjectReference| self.contains(x) implies #[trigger] self.object_ok(
                x,
            ) by {
                if x.addr < fresh {
                    assert(old(self).object_ok(x));
                    if old(self).forwarded(x) is Some {
                        assert(old(self).object_ok(old(self).forwarded(x).unwrap()));
                    }
                }
            }
        }
        to
    }
}

} // verus!
