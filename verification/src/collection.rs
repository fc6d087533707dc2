//! The points of a collection cycle at which the tracing framework calls on
//! the reference machinery. Each phase makes its units of work and runs
//! them on the calling thread, one after the other.

use vstd::prelude::*;
use crate::abi::{ObjectReference, ReferenceType};
use crate::heap::Heap;
use crate::processing::within;
use crate::reference_glue::{
    disjoint, DiscoveredLists, PendingList, ProcessDiscoveredList, ReferenceOptions,
    ResurrectFinalizables,
};
use crate::schedule::{
    all_made_from, lemma_batch_made, lemma_concat_made, lemma_made_units_runnable,
    lemma_resurrections_runnable, no_final_unit, resurrected, resurrections_done,
    run_resurrections, run_units, units_done,
};

verus! {

/// The collection services.
pub struct VMCollection {}

/// What every phase leaves behind: a well-formed heap, registry and pending
/// list; lists that hold nothing they did not hold before; and a pending
/// list that has grown at its head alone, with what was pending untouched.
pub open spec fn phase_done(
    lists0: &DiscoveredLists,
    heap0: &Heap,
    pending0: &PendingList,
    lists1: &DiscoveredLists,
    heap1: &Heap,
    pending1: &PendingList,
) -> bool {
    &&& heap1.wf()
    &&& lists1.wf(heap1)
    &&& pending1.wf(heap1)
    &&& lists1.apart_from(pending1@)
    &&& lists1.workers() == lists0.workers()
    &&& forall|rt: ReferenceType, i: int|
        lists0.slot(rt, i) ==> within((#[trigger] lists1.list(rt, i))@, lists0.list(rt, i)@)
    &&& pending0@.len() <= pending1@.len()
    &&& pending1@.subrange(pending1@.len() - pending0@.len(), pending1@.len() as int)
        == pending0@
    &&& forall|i: int|
        0 <= i < pending0@.len() ==> heap1.object(#[trigger] pending0@[i]) == heap0.object(
            pending0@[i],
        )
}

/// Every list of kind `rt` is empty.
pub open spec fn kind_emptied(lists: &DiscoveredLists, rt: ReferenceType) -> bool {
    forall|i: int|
        lists.slot(rt, i) ==> (#[trigger] lists.list(rt, i))@ == Seq::<ObjectReference>::empty()
            && lists.list(rt, i).spec_head() is None
}

/// Every list of kind `rt` is the same in both registries.
pub open spec fn kind_kept(
    before: &DiscoveredLists,
    after: &DiscoveredLists,
    rt: ReferenceType,
) -> bool {
    forall|i: int| before.slot(rt, i) ==> #[trigger] after.list(rt, i) == before.list(rt, i)
}

/// The units of work of the first phase after the trace: those for the soft
/// and for the weak references, unless `options` turns reference types off,
/// then those for the final references, unless it turns finalizers off.
pub open spec fn weak_phase_units(
    lists: &DiscoveredLists,
    options: ReferenceOptions,
) -> Seq<ProcessDiscoveredList> {
    (if options.no_reference_types {
        Seq::<ProcessDiscoveredList>::empty()
    } else {
        ProcessDiscoveredList::batch(lists, ReferenceType::Soft, lists.workers() as int)
            + ProcessDiscoveredList::batch(lists, ReferenceType::Weak, lists.workers() as int)
    }) + (if options.no_finalizer {
        Seq::<ProcessDiscoveredList>::empty()
    } else {
        ProcessDiscoveredList::batch(lists, ReferenceType::Final, lists.workers() as int)
    })
}

impl VMCollection {
    /// The mutators resume: references may be discovered again.
    pub fn resume_mutators(lists: &DiscoveredLists) {
        lists.enable_discover();
    }

    /// The trace is over: closes the discovery gate and processes the soft,
    /// the weak and the final references.
    ///
    /// The lists of soft and weak references end up empty, and every
    /// reference that was added to the pending list has been cleared. The
    /// lists of final references hold the references that await
    /// resurrection. A kind that `options` turns off keeps its lists, and
    /// the lists of phantom references are kept in any case. What has become
    /// of each member of each list is what [`units_done`] says of the units
    /// of [`weak_phase_units`], run in that order.
    pub fn process_weak_refs(
        lists: &mut DiscoveredLists,
        heap: &mut Heap,
        pending: &mut PendingList,
        options: ReferenceOptions,
        emergency: bool,
    )
        requires
            old(heap).wf(),
            old(lists).wf(old(heap)),
            old(pending).wf(old(heap)),
            old(lists).apart_from(old(pending)@),
        ensures
            phase_done(
                old(lists),
                old(heap),
                old(pending),
                final(lists),
                final(heap),
                final(pending),
            ),
            kind_kept(old(lists), final(lists), ReferenceType::Phantom),
            options.no_reference_types ==> kind_kept(old(lists), final(lists), ReferenceType::Soft)
                && kind_kept(old(lists), final(lists), ReferenceType::Weak),
            !options.no_reference_types ==> kind_emptied(final(lists), ReferenceType::Soft)
                && kind_emptied(final(lists), ReferenceType::Weak),
            options.no_finalizer ==> kind_kept(old(lists), final(lists), ReferenceType::Final),
            forall|i: int|
                0 <= i < final(pending)@.len() - old(pending)@.len() ==> final(heap).referent(
                    #[trigger] final(pending)@[i],
                ) is None,
            units_done(
                weak_phase_units(old(lists), options),
                emergency,
                old(heap),
                final(heap),
                final(lists),
                old(pending)@,
                final(pending)@,
            ),
    {
        let units = lists.process_soft_weak_final_refs(options);
        proof {
            assert(units@ == weak_phase_units(old(lists), options));
        }
        let ghost all = old(lists).workers() as int;
        let ghost soft = ProcessDiscoveredList::batch(old(lists), ReferenceType::Soft, all);
        let ghost weak = ProcessDiscoveredList::batch(old(lists), ReferenceType::Weak, all);
        let ghost none = Seq::<ProcessDiscoveredList>::empty();
        let ghost first = if options.no_reference_types {
            none
        } else {
            soft + weak
        };
        proof {
            let last = ProcessDiscoveredList::batch(old(lists), ReferenceType::Final, all);
            let kinds = if options.no_reference_types {
                Set::empty()
            } else {
                set![ReferenceType::Soft, ReferenceType::Weak]
            };
            lemma_batch_made(old(lists), ReferenceType::Soft);
            lemma_batch_made(old(lists), ReferenceType::Weak);
            lemma_batch_made(old(lists), ReferenceType::Final);
            lemma_concat_made(
                soft,
                weak,
                old(lists),
                set![ReferenceType::Soft],
                set![ReferenceType::Weak],
            );
            let second = if options.no_finalizer {
                none
            } else {
                last
            };
            assert(all_made_from(none, old(lists)));
            lemma_concat_made(
                first,
                second,
                old(lists),
                set![ReferenceType::Soft].union(set![ReferenceType::Weak]),
                set![ReferenceType::Final],
            );
            assert forall|k: int|
                0 <= k < units@.len() && (#[trigger] units@[k]).spec_kind()
                    != ReferenceType::Final implies kinds.contains(units@[k].spec_kind()) by {
                if k < first.len() {
                    assert(units@[k] == first[k]);
                } else {
                    assert(units@[k] == second[k - first.len()]);
                }
            }
            lemma_made_units_runnable(units@, old(lists), lists, old(heap), old(pending)@, kinds);
            assert(lists.apart_from(old(pending)@)) by {
                assert forall|rt: ReferenceType, i: int| lists.slot(rt, i) implies
                    disjoint((#[trigger] lists.list(rt, i))@, old(pending)@) by {
                    assert(disjoint(old(lists).list(rt, i)@, old(pending)@));
                }
            }
        }
        let ghost made = *lists;
        run_units(&units, lists, heap, pending, emergency);
        proof {
            assert forall|rt: ReferenceType, i: int| old(lists).slot(rt, i) implies within(
                (#[trigger] lists.list(rt, i))@,
                old(lists).list(rt, i)@,
            ) by {
                let was = old(lists).list(rt, i)@;
                let mid = made.list(rt, i)@;
                let is = lists.list(rt, i)@;
                assert(within(is, mid));
                assert forall|k: int| 0 <= k < is.len() implies was.contains(#[trigger] is[k]) by {
                    assert(mid.contains(is[k]));
                }
            }
            assert forall|i: int| old(lists).slot(ReferenceType::Phantom, i) implies #[trigger] lists.list(
                ReferenceType::Phantom,
                i,
            ) == old(lists).list(ReferenceType::Phantom, i) by {
                let _ = made.list(ReferenceType::Phantom, i);
            }
            assert forall|i: int| old(lists).slot(ReferenceType::Soft, i) implies (
            options.no_reference_types ==> #[trigger] lists.list(ReferenceType::Soft, i) == old(
                lists,
            ).list(ReferenceType::Soft, i)) && (!options.no_reference_types ==> lists.list(
                ReferenceType::Soft,
                i,
            )@ == Seq::<ObjectReference>::empty() && lists.list(ReferenceType::Soft, i).spec_head()
                is None) by {
                let _ = made.list(ReferenceType::Soft, i);
            }
            assert forall|i: int| old(lists).slot(ReferenceType::Weak, i) implies (
            options.no_reference_types ==> #[trigger] lists.list(ReferenceType::Weak, i) == old(
                lists,
            ).list(ReferenceType::Weak, i)) && (!options.no_reference_types ==> lists.list(
                ReferenceType::Weak,
                i,
            )@ == Seq::<ObjectReference>::empty() && lists.list(ReferenceType::Weak, i).spec_head()
                is None) by {
                let _ = made.list(ReferenceType::Weak, i);
            }
            if options.no_finalizer {
                assert(no_final_unit(units@)) by {
                    assert(units@ =~= first);
                }
                assert forall|i: int| old(lists).slot(ReferenceType::Final, i) implies #[trigger] lists.list(
                    ReferenceType::Final,
                    i,
                ) == old(lists).list(ReferenceType::Final, i) by {
                    let _ = made.list(ReferenceType::Final, i);
                }
            }
        }
    }

    /// Resurrects the final references that await it: their referents are
    /// kept alive for one more cycle, and the references are handed to the
    /// runtime. The lists of final references end up empty, and every
    /// reference that was added to the pending list refers to nothing or to
    /// a settled object. Not to be called when `options` turns finalizers off.
    pub fn process_final_refs(
        lists: &mut DiscoveredLists,
        heap: &mut Heap,
        pending: &mut PendingList,
        options: ReferenceOptions,
    )
        requires
            old(heap).wf(),
            old(lists).wf(old(heap)),
            old(pending).wf(old(heap)),
            old(lists).apart_from(old(pending)@),
            !options.no_finalizer,
        ensures
            phase_done(
                old(lists),
                old(heap),
                old(pending),
                final(lists),
                final(heap),
                final(pending),
            ),
            kind_kept(old(lists), final(lists), ReferenceType::Soft),
            kind_kept(old(lists), final(lists), ReferenceType::Weak),
            kind_kept(old(lists), final(lists), ReferenceType::Phantom),
            kind_emptied(final(lists), ReferenceType::Final),
            forall|i: int|
                0 <= i < final(pending)@.len() - old(pending)@.len() ==> resurrected(
                    final(heap),
                    #[trigger] final(pending)@[i],
                ),
            resurrections_done(
                ResurrectFinalizables::batch(old(lists), old(lists).workers() as int),
                old(heap),
                final(heap),
                final(lists),
                old(pending)@,
                final(pending)@,
            ),
    {
        let units = lists.resurrect_final_refs(options);
        proof {
            lemma_resurrections_runnable(old(lists), lists, old(heap), old(pending)@);
            assert(lists.apart_from(old(pending)@)) by {
                assert forall|rt: ReferenceType, i: int| lists.slot(rt, i) implies
                    disjoint((#[trigger] lists.list(rt, i))@, old(pending)@) by {
                    assert(disjoint(old(lists).list(rt, i)@, old(pending)@));
                }
            }
        }
        let ghost made = *lists;
        run_resurrections(&units, lists, heap, pending);
        proof {
            assert forall|rt: ReferenceType, i: int| old(lists).slot(rt, i) implies within(
                (#[trigger] lists.list(rt, i))@,
                old(lists).list(rt, i)@,
            ) && (rt != ReferenceType::Final ==> lists.list(rt, i) == old(lists).list(rt, i)) && (rt
                == ReferenceType::Final ==> lists.list(rt, i)@ == Seq::<ObjectReference>::empty()
                && lists.list(rt, i).spec_head() is None) by {
                let was = old(lists).list(rt, i)@;
                let mid = made.list(rt, i)@;
                let is = lists.list(rt, i)@;
                assert(within(is, mid));
                assert forall|k: int| 0 <= k < is.len() implies was.contains(#[trigger] is[k]) by {
                    assert(mid.contains(is[k]));
                }
                if rt == ReferenceType::Final {
                    assert(is =~= Seq::empty());
                    assert(lists.list(rt, i).wf(heap));
                }
            }
        }
    }

    /// Processes the phantom references. Their lists end up empty, and
    /// every reference that was added to the pending list has been cleared.
    /// Not to be called when `options` turns reference types off.
    pub fn process_phantom_refs(
        lists: &mut DiscoveredLists,
        heap: &mut Heap,
        pending: &mut PendingList,
        options: ReferenceOptions,
        emergency: bool,
    )
        requires
            old(heap).wf(),
            old(lists).wf(old(heap)),
            old(pending).wf(old(heap)),
            old(lists).apart_from(old(pending)@),
            !options.no_reference_types,
        ensures
            phase_done(
                old(lists),
                old(heap),
                old(pending),
                final(lists),
                final(heap),
                final(pending),
            ),
            kind_kept(old(lists), final(lists), ReferenceType::Soft),
            kind_kept(old(lists), final(lists), ReferenceType::Weak),
            kind_kept(old(lists), final(lists), ReferenceType::Final),
            kind_emptied(final(lists), ReferenceType::Phantom),
            forall|i: int|
                0 <= i < final(pending)@.len() - old(pending)@.len() ==> final(heap).referent(
                    #[trigger] final(pending)@[i],
                ) is None,
            units_done(
                ProcessDiscoveredList::batch(
                    old(lists),
                    ReferenceType::Phantom,
                    old(lists).workers() as int,
                ),
                emergency,
                old(heap),
                final(heap),
                final(lists),
                old(pending)@,
                final(pending)@,
            ),
    {
        let units = lists.process_phantom_refs(options);
        proof {
            lemma_batch_made(old(lists), ReferenceType::Phantom);
            lemma_made_units_runnable(
                units@,
                old(lists),
                lists,
                old(heap),
                old(pending)@,
                set![ReferenceType::Phantom],
            );
            assert(lists.apart_from(old(pending)@)) by {
                assert forall|rt: ReferenceType, i: int| lists.slot(rt, i) implies
                    disjoint((#[trigger] lists.list(rt, i))@, old(pending)@) by {
                    assert(disjoint(old(lists).list(rt, i)@, old(pending)@));
                }
            }
        }
        let ghost made = *lists;
        run_units(&units, lists, heap, pending, emergency);
        proof {
            assert forall|rt: ReferenceType, i: int| old(lists).slot(rt, i) implies within(
                (#[trigger] lists.list(rt, i))@,
                old(lists).list(rt, i)@,
            ) && (rt != ReferenceType::Phantom && rt != ReferenceType::Final ==> lists.list(rt, i)
                == old(lists).list(rt, i)) && (rt == ReferenceType::Phantom ==> lists.list(rt, i)@
                == Seq::<ObjectReference>::empty() && lists.list(rt, i).spec_head() is None) by {
                let was = old(lists).list(rt, i)@;
                let mid = made.list(rt, i)@;
                let is = lists.list(rt, i)@;
                assert(within(is, mid));
                assert forall|k: int| 0 <= k < is.len() implies was.contains(#[trigger] is[k]) by {
                    assert(mid.contains(is[k]));
                }
            }
            assert(no_final_unit(units@));
            assert forall|i: int| old(lists).slot(ReferenceType::Final, i) implies #[trigger] lists.list(
                ReferenceType::Final,
                i,
            ) == old(lists).list(ReferenceType::Final, i) by {
                let _ = made.list(ReferenceType::Final, i);
            }
        }
    }
}

} // verus!
