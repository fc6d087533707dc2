//! The shapes of managed objects that the reference machinery reads.

use vstd::prelude::*;

verus! {

/// The address of a managed object. Addresses are handed out by the
/// [`Heap`](crate::heap::Heap); a field that holds no object holds `None`.
#[derive(Clone, Copy, Debug, PartialEq, Eq, Structural)]
pub struct ObjectReference {
    pub addr: usize,
}

/// The reachability tier that the runtime gave a reference object when it
/// was created. `NoReference` marks an ordinary object; `Other` is a reference class
/// of the runtime's own, which is treated as `Weak`.
#[derive(Clone, Copy, Debug, PartialEq, Eq, Structural)]
pub enum ReferenceType {
    NoReference,
    Other,
    Soft,
    Weak,
    Final,
    Phantom,
}

/// The layout class of an object.
#[derive(Clone, Copy, Debug, PartialEq, Eq, Structural)]
pub enum KlassID {
    Instance,
    InstanceRef,
    InstanceMirror,
    InstanceClassLoader,
    TypeArray,
    ObjArray,
}

impl ReferenceType {
    /// Whether a discovered list exists for this kind.
    pub open spec fn is_listed(self) -> bool {
        self == ReferenceType::Soft || self == ReferenceType::Weak || self == ReferenceType::Final
            || self == ReferenceType::Phantom
    }
}

/// One of the two reference fields of a reference object.
#[derive(Clone, Copy, Debug, PartialEq, Eq, Structural)]
pub enum Field {
    Referent,
    Discovered,
}

/// The place of a reference field: the object and the field in it.
#[derive(Clone, Copy, Debug, PartialEq, Eq, Structural)]
pub struct Slot {
    pub object: ObjectReference,
    pub field: Field,
}

/// The layout of reference objects.
pub struct InstanceRefKlass {}

impl InstanceRefKlass {
    /// The place of the `referent` field of `oop`.
    pub fn referent_address(oop: ObjectReference) -> (slot: Slot)
        ensures
            slot == (Slot { object: oop, field: Field::Referent }),
    {
        Slot { object: oop, field: Field::Referent }
    }

    /// The place of the `discovered` field of `oop`.
    pub fn discovered_address(oop: ObjectReference) -> (slot: Slot)
        ensures
            slot == (Slot { object: oop, field: Field::Discovered }),
    {
        Slot { object: oop, field: Field::Discovered }
    }
}

/// One object as the collector sees it: its class, its two reference fields,
/// and the collector's own header state.
#[derive(Clone, Copy, Debug, PartialEq, Eq, Structural)]
pub struct OopDesc {
    pub klass: KlassID,
    pub reference_type: ReferenceType,
    /// The tracked target of a reference object.
    pub referent: Option<ObjectReference>,
    /// The intrusive link of the discovered lists.
    pub discovered: Option<ObjectReference>,
    /// Where the object went, once the collector has moved it.
    pub forwarding: Option<ObjectReference>,
    /// Set once the trace has reached the object.
    pub marked: bool,
    /// Whether the collector evacuates the object when the trace first reaches it.
    pub relocates: bool,
}

impl OopDesc {
    /// What the field `field` of the object holds.
    pub open spec fn field(self, field: Field) -> Option<ObjectReference> {
        match field {
            Field::Referent => self.referent,
            Field::Discovered => self.discovered,
        }
    }

    /// The object with its field `field` replaced.
    pub open spec fn with_field(self, field: Field, value: Option<ObjectReference>) -> OopDesc {
        match field {
            Field::Referent => self.with_referent(value),
            Field::Discovered => self.with_discovered(value),
        }
    }

    /// The object with its `referent` field replaced.
    pub open spec fn with_referent(self, referent: Option<ObjectReference>) -> OopDesc {
        OopDesc { referent, ..self }
    }

    /// The object with its `discovered` field replaced.
    pub open spec fn with_discovered(self, discovered: Option<ObjectReference>) -> OopDesc {
        OopDesc { discovered, ..self }
    }

    /// The object once the trace has marked it in place.
    pub open spec fn as_marked(self) -> OopDesc {
        OopDesc { marked: true, ..self }
    }

    /// What is left at the old address once the object has moved to `to`.
    pub open spec fn as_forwarded(self, to: ObjectReference) -> OopDesc {
        OopDesc { forwarding: Some(to), ..self }
    }

    /// The copy that the collector makes when it evacuates the object.
    pub open spec fn as_copy(self) -> OopDesc {
        OopDesc { forwarding: None, marked: true, relocates: false, ..self }
    }

    /// A newly allocated ordinary object of class `klass`.
    pub fn plain(klass: KlassID, relocates: bool) -> (o: OopDesc)
        ensures
            o == (OopDesc {
                klass,
                reference_type: ReferenceType::NoReference,
                referent: None,
                discovered: None,
                forwarding: None,
                marked: false,
                relocates,
            }),
    {
        OopDesc {
            klass,
            reference_type: ReferenceType::NoReference,
            referent: None,
            discovered: None,
            forwarding: None,
            marked: false,
            relocates,
        }
    }

    /// A newly allocated reference object of kind `rt` that tracks `referent`.
    pub fn reference(rt: ReferenceType, referent: Option<ObjectReference>, relocates: bool) -> (o:
        OopDesc)
        ensures
            o == (OopDesc {
                klass: KlassID::InstanceRef,
                reference_type: rt,
                referent,
                discovered: None,
                forwarding: None,
                marked: false,
                relocates,
            }),
    {
        OopDesc {
            klass: KlassID::InstanceRef,
            reference_type: rt,
            referent,
            discovered: None,
            forwarding: None,
            marked: false,
            relocates,
        }
    }
}

} // verus!
