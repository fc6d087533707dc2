//! The walk over a discovered list once the trace is over: what happens to
//! each member, and how the members that are kept are strung together again.

use vstd::prelude::*;
use crate::abi::{ObjectReference, ReferenceType};
use crate::heap::Heap;
use crate::reference_glue::{
    disjoint, get_next_reference, get_referent, is_discovered_chain, is_pending_chain,
    lemma_pending_chain_frame, links_to, set_next_reference, set_referent, successor,
};

verus! {

/// What becomes of a member of a discovered list.
#[derive(Clone, Copy, Debug, PartialEq, Eq, Structural)]
pub enum DiscoveredListIterationResult {
    /// The reference leaves the list and is forgotten.
    Remove,
    /// The reference is kept, to be handed on.
    Enqueue(ObjectReference),
}

/// What a walk does with each member.
#[derive(Clone, Copy, Debug, PartialEq, Eq, Structural)]
pub enum Visit {
    /// Decide by the referent whether a reference of kind `rt` is dropped or
    /// kept. With `retain`, a referent that the trace has not reached is
    /// kept alive all the same.
    Classify { rt: ReferenceType, retain: bool },
    /// Keep every reference, and its referent alive with it.
    Resurrect,
}

impl Visit {
    /// Whether the walk keeps the referent `referent` alive, as things stand in `heap`.
    pub open spec fn keeps(self, heap: &Heap, referent: ObjectReference) -> bool {
        match self {
            Visit::Classify { rt, retain } => heap.reachable(referent) || retain,
            Visit::Resurrect => true,
        }
    }

    /// Whether the walk keeps the member `reference`, as things stand in `heap`.
    pub open spec fn enqueues(self, heap: &Heap, reference: ObjectReference) -> bool {
        match self {
            Visit::Classify { rt, retain } => heap.referent(reference) is Some && !self.keeps(
                heap,
                heap.referent(reference).unwrap(),
            ),
            Visit::Resurrect => true,
        }
    }

    /// Whether the walk may trace an object that the trace had not reached.
    pub open spec fn retraces(self) -> bool {
        match self {
            Visit::Classify { rt, retain } => retain,
            Visit::Resurrect => true,
        }
    }

    /// What the walk leaves in the `referent` field of a member whose
    /// referent it does not keep alive.
    pub open spec fn leaves(self, referent: ObjectReference) -> Option<ObjectReference> {
        match self {
            Visit::Classify { rt, retain } => if rt == ReferenceType::Final {
                Some(referent)
            } else {
                None
            },
            Visit::Resurrect => Some(referent),
        }
    }

    /// The state of the member `reference` in `after`, given that the walk
    /// began in `before`. An empty referent stays empty. A referent that is
    /// kept alive is settled, and the field holds the address it lives at. A
    /// referent that is not is cleared, or left as it was in a final reference.
    pub open spec fn settles(
        self,
        before: &Heap,
        after: &Heap,
        reference: ObjectReference,
    ) -> bool {
        match before.referent(reference) {
            None => after.referent(reference) is None,
            Some(referent) => if self.keeps(before, referent) {
                &&& after.referent(reference) == Some(after.resolve(referent))
                &&& after.settled(after.resolve(referent))
            } else {
                after.referent(reference) == self.leaves(referent)
            },
        }
    }
}

/// The headers of the two heaps agree: the same objects, marked and moved alike.
pub open spec fn same_headers(before: &Heap, after: &Heap) -> bool {
    &&& before@.len() == after@.len()
    &&& forall|x: ObjectReference| #![trigger after.object(x)]
        before.contains(x) ==> after.object(x).forwarding == before.object(x).forwarding
            && after.object(x).marked == before.object(x).marked
}

/// Some member of `nodes` refers to `x` in `heap`.
pub open spec fn referred(heap: &Heap, nodes: Seq<ObjectReference>, x: ObjectReference) -> bool {
    exists|j: int| 0 <= j < nodes.len() && heap.referent(#[trigger] nodes[j]) == Some(x)
}

/// Every object of `before` that is no member of `nodes`, and to which no
/// member refers, is the same in `after`.
pub open spec fn others_untouched(
    before: &Heap,
    after: &Heap,
    nodes: Seq<ObjectReference>,
) -> bool {
    forall|x: ObjectReference| #![trigger after.object(x)]
        before.contains(x) && !nodes.contains(x) && !referred(before, nodes, x) ==> after.object(x)
            == before.object(x)
}

/// Every member of `part` is a member of `whole`.
pub open spec fn within(part: Seq<ObjectReference>, whole: Seq<ObjectReference>) -> bool {
    forall|k: int| 0 <= k < part.len() ==> whole.contains(#[trigger] part[k])
}

/// The members of `nodes` that a walk keeps, last visited first.
pub open spec fn enqueued(how: Visit, heap: &Heap, nodes: Seq<ObjectReference>) -> Seq<
    ObjectReference,
>
    decreases nodes.len(),
{
    if nodes.len() == 0 {
        Seq::empty()
    } else {
        let earlier = enqueued(how, heap, nodes.drop_last());
        if how.enqueues(heap, nodes.last()) {
            seq![nodes.last()] + earlier
        } else {
            earlier
        }
    }
}

/// Changes of the heap follow one another.
pub proof fn lemma_evolves_trans(
    a: &Heap,
    b: &Heap,
    c: &Heap,
    first: Seq<ObjectReference>,
    second: Seq<ObjectReference>,
    both: Seq<ObjectReference>,
)
    requires
        a.evolves(b, first),
        b.evolves(c, second),
        within(first, both),
        within(second, both),
    ensures
        a.evolves(c, both),
{
    assert forall|x: ObjectReference| #![trigger c.object(x)] a.contains(x) implies {
        &&& a.reachable(x) ==> c.forwarded(x) == a.forwarded(x) && c.object(x).marked
            == a.object(x).marked
        &&& a.reachable(x) && !both.contains(x) ==> c.object(x) == a.object(x)
        &&& !both.contains(x) ==> c.referent(x) == a.referent(x) && c.discovered(x)
            == a.discovered(x)
    } by {
        let _ = b.object(x);
        if first.contains(x) {
            let k = choose|k: int| 0 <= k < first.len() && first[k] == x;
            assert(both.contains(first[k]));
        }
        if second.contains(x) {
            let k = choose|k: int| 0 <= k < second.len() && second[k] == x;
            assert(both.contains(second[k]));
        }
    }
}

/// A member that a walk has dealt with stays as the walk left it while the
/// heap changes around it.
pub proof fn lemma_settles_stable(
    how: Visit,
    start: &Heap,
    a: &Heap,
    b: &Heap,
    touched: Seq<ObjectReference>,
    reference: ObjectReference,
)
    requires
        how.settles(start, a, reference),
        start.wf(),
        start.contains(reference),
        a.contains(reference),
        start@.len() <= a@.len(),
        a.evolves(b, touched),
        b.referent(reference) == a.referent(reference),
    ensures
        how.settles(start, b, reference),
{
    if start.referent(reference) is Some {
        let referent = start.referent(reference).unwrap();
        assert(start.object_ok(reference));
        assert(a.contains(referent));
        if how.keeps(start, referent) {
            let to = a.resolve(referent);
            let _ = b.object(referent);
            let _ = b.object(to);
        }
    }
}

/// Deals with one member of a discovered list. The reference and its
/// referent are traced as far as the walk keeps them alive, and the
/// `referent` field is brought up to date or cleared.
pub fn visit(heap: &mut Heap, reference: ObjectReference, how: Visit) -> (result:
    DiscoveredListIterationResult)
    requires
        old(heap).wf(),
        old(heap).settled(reference),
    ensures
        final(heap).wf(),
        result == (if how.enqueues(old(heap), reference) {
            DiscoveredListIterationResult::Enqueue(reference)
        } else {
            DiscoveredListIterationResult::Remove
        }),
        how.settles(old(heap), final(heap), reference),
        final(heap).discovered(reference) == old(heap).discovered(reference),
        old(heap).evolves(final(heap), seq![reference]),
        !how.retraces() ==> same_headers(old(heap), final(heap)),
        final(heap)@.len() <= old(heap)@.len() + 1,
        forall|x: ObjectReference| #![trigger final(heap).object(x)]
            old(heap).contains(x) && x != reference && old(heap).referent(reference) != Some(x)
                ==> final(heap).object(x) == old(heap).object(x),
{
    let ghost start = *heap;
    let ghost only = seq![reference];
    proof {
        assert(only[0] == reference);
        assert(start.object_ok(reference));
    }
    let reference = heap.trace_object(reference);
    let referent = get_referent(heap, reference);
    match how {
        Visit::Classify { rt, retain } => {
            match referent {
                None => DiscoveredListIterationResult::Remove,
                Some(referent) => {
                    if heap.is_reachable(referent) || retain {
                        let forwarded = heap.trace_object(referent);
                        let ghost traced = *heap;
                        set_referent(heap, reference, Some(forwarded));
                        proof {
                            lemma_evolves_trans(&start, &traced, heap, Seq::empty(), only, only);
                            let _ = heap.object(referent);
                            let _ = heap.object(forwarded);
                        }
                        DiscoveredListIterationResult::Remove
                    } else {
                        if rt != ReferenceType::Final {
                            set_referent(heap, reference, None);
                        }
                        DiscoveredListIterationResult::Enqueue(reference)
                    }
                },
            }
        },
        Visit::Resurrect => {
            let forwarded = match referent {
                Some(o) => Some(heap.trace_object(o)),
                None => None,
            };
            let ghost traced = *heap;
            proof {
                let _ = traced.object(reference);
            }
            set_referent(heap, reference, forwarded);
            proof {
                lemma_evolves_trans(&start, &traced, heap, Seq::empty(), only, only);
                if referent is Some {
                    let _ = heap.object(referent.unwrap());
                    let _ = heap.object(forwarded.unwrap());
                }
            }
            DiscoveredListIterationResult::Enqueue(reference)
        },
    }
}

/// The head of a list with the members `nodes`.
pub open spec fn head_of(nodes: Seq<ObjectReference>) -> Option<ObjectReference> {
    if nodes.len() == 0 {
        None
    } else {
        Some(nodes[0])
    }
}

/// The tail of a list with the members `nodes`.
pub open spec fn tail_of(nodes: Seq<ObjectReference>) -> Option<ObjectReference> {
    if nodes.len() == 0 {
        None
    } else {
        Some(nodes.last())
    }
}

/// How far a walk has come: it began in `start`, has dealt with the first
/// `done` members of `nodes`, has kept `kept` of them, and the heap is now
/// `heap`.
#[verifier::opaque]
pub open spec fn walked(
    how: Visit,
    start: &Heap,
    heap: &Heap,
    nodes: Seq<ObjectReference>,
    done: int,
    kept: Seq<ObjectReference>,
) -> bool {
    &&& 0 <= done <= nodes.len()
    &&& start.evolves(heap, nodes)
    &&& !how.retraces() ==> same_headers(start, heap)
    &&& forall|j: int| 0 <= j < nodes.len() ==> heap.settled(#[trigger] nodes[j])
    &&& forall|j: int|
        done <= j < nodes.len() ==> heap.object(#[trigger] nodes[j]) == start.object(nodes[j])
    &&& forall|j: int| 0 <= j < done ==> how.settles(start, heap, #[trigger] nodes[j])
    &&& forall|j: int|
        0 <= j < done && !how.enqueues(start, #[trigger] nodes[j]) ==> heap.discovered(nodes[j])
            is None
    &&& kept == enqueued(how, start, nodes.take(done))
    &&& within(kept, nodes.take(done))
    &&& is_pending_chain(heap, head_of(kept), kept)
    &&& others_untouched(start, heap, nodes)
    &&& heap@.len() <= start@.len() + done
}

/// A walk that has not begun has dealt with nothing.
proof fn lemma_walk_start(
    how: Visit,
    start: &Heap,
    head: ObjectReference,
    nodes: Seq<ObjectReference>,
)
    requires
        is_discovered_chain(start, Some(head), nodes),
    ensures
        walked(how, start, start, nodes, 0, Seq::empty()),
{
    reveal(walked);
    assert(nodes.take(0) =~= Seq::empty());
}

/// What a walk finds at the member it deals with next.
proof fn lemma_walk_at(
    how: Visit,
    start: &Heap,
    heap: &Heap,
    head: ObjectReference,
    nodes: Seq<ObjectReference>,
    done: int,
    kept: Seq<ObjectReference>,
)
    requires
        start.wf(),
        is_discovered_chain(start, Some(head), nodes),
        walked(how, start, heap, nodes, done, kept),
        done < nodes.len(),
    ensures
        start.contains(nodes[done]),
        heap.settled(nodes[done]),
        links_to(heap, nodes[done], successor(nodes, done)),
        heap.settled(successor(nodes, done)),
        (successor(nodes, done) == nodes[done]) == (done + 1 >= nodes.len()),
        heap.referent(nodes[done]) == start.referent(nodes[done]),
        heap.admits(start.referent(nodes[done])),
        start.referent(nodes[done]) is Some ==> start.contains(start.referent(nodes[done]).unwrap())
            && (how.keeps(heap, start.referent(nodes[done]).unwrap()) == how.keeps(
            start,
            start.referent(nodes[done]).unwrap(),
        )),
        kept.len() > 0 ==> heap.settled(kept[0]),
        disjoint(kept, seq![nodes[done]]),
        within(seq![nodes[done]], nodes),
        start@.len() <= heap@.len(),
{
    reveal(walked);
    let reference = nodes[done];
    assert(start.settled(reference));
    assert(start.object_ok(reference));
    assert(links_to(start, reference, successor(nodes, done)));
    assert(heap.object(reference) == start.object(reference));
    let x = start.discovered(reference).unwrap();
    let _ = heap.object(x);
    assert(start.settled(successor(nodes, done)));
    assert(heap.resolve(x) == successor(nodes, done));
    if done + 1 < nodes.len() {
        assert(nodes[done + 1] != nodes[done]);
    }
    if start.referent(reference) is Some {
        let r = start.referent(reference).unwrap();
        let _ = heap.object(r);
    }
    assert(seq![reference][0] == reference);
    assert forall|k: int| 0 <= k < kept.len() implies kept[k] != reference by {
        assert(nodes.take(done).contains(kept[k]));
        let j = choose|j: int| 0 <= j < nodes.take(done).len() && nodes.take(done)[j] == kept[k];
        assert(nodes[j] == kept[k]);
    }
}

/// What one step of a walk adds to what it has done so far.
proof fn lemma_walk_step(
    how: Visit,
    start: &Heap,
    before: &Heap,
    after: &Heap,
    head: ObjectReference,
    nodes: Seq<ObjectReference>,
    done: int,
    kept: Seq<ObjectReference>,
)
    requires
        start.wf(),
        is_discovered_chain(start, Some(head), nodes),
        walked(how, start, before, nodes, done, kept),
        done < nodes.len(),
        before.evolves(after, seq![nodes[done]]),
        how.settles(start, after, nodes[done]),
        !how.retraces() ==> same_headers(before, after),
        how.enqueues(start, nodes[done]) ==> after.discovered(nodes[done]) == head_of(kept),
        !how.enqueues(start, nodes[done]) ==> after.discovered(nodes[done]) is None,
        after@.len() <= before@.len() + 1,
        forall|x: ObjectReference| #![trigger after.object(x)]
            before.contains(x) && x != nodes[done] && start.referent(nodes[done]) != Some(x)
                ==> after.object(x) == before.object(x),
    ensures
        walked(
            how,
            start,
            after,
            nodes,
            done + 1,
            if how.enqueues(start, nodes[done]) {
                seq![nodes[done]] + kept
            } else {
                kept
            },
        ),
{
    reveal(walked);
    let reference = nodes[done];
    let only = seq![reference];
    let grown = if how.enqueues(start, reference) {
        seq![reference] + kept
    } else {
        kept
    };
    lemma_walk_at(how, start, before, head, nodes, done, kept);
    assert(only[0] == reference);
    lemma_evolves_trans(start, before, after, nodes, only, nodes);
    lemma_pending_chain_frame(before, after, only, head_of(kept), kept);
    assert(nodes.take(done + 1).drop_last() =~= nodes.take(done));
    assert(nodes.take(done + 1).last() == reference);
    assert(grown == enqueued(how, start, nodes.take(done + 1)));
    assert(within(grown, nodes.take(done + 1))) by {
        assert forall|k: int| 0 <= k < grown.len() implies nodes.take(done + 1).contains(
            #[trigger] grown[k],
        ) by {
            if how.enqueues(start, reference) && k == 0 {
                assert(nodes.take(done + 1)[done] == reference);
            } else {
                let kk = if how.enqueues(start, reference) {
                    k - 1
                } else {
                    k
                };
                assert(grown[k] == kept[kk]);
                assert(nodes.take(done).contains(kept[kk]));
                let j = choose|j: int|
                    0 <= j < nodes.take(done).len() && nodes.take(done)[j] == kept[kk];
                assert(nodes.take(done + 1)[j] == kept[kk]);
            }
        }
    }
    assert forall|j: int| 0 <= j < nodes.len() implies after.settled(#[trigger] nodes[j]) by {
        assert(before.settled(nodes[j]));
        let _ = after.object(nodes[j]);
    }
    assert forall|j: int| 0 <= j < nodes.len() && j != done implies after.object(
        #[trigger] nodes[j],
    ) == before.object(nodes[j]) by {
        assert(before.settled(nodes[j]));
        assert(nodes[j] != nodes[done]);
        assert(!only.contains(nodes[j]));
    }
    assert forall|j: int| 0 <= j < done + 1 implies how.settles(
        start,
        after,
        #[trigger] nodes[j],
    ) by {
        if j < done {
            assert(start.settled(nodes[j]));
            lemma_settles_stable(how, start, before, after, only, nodes[j]);
        }
    }
    assert(others_untouched(start, after, nodes)) by {
        assert forall|x: ObjectReference| #![trigger after.object(x)]
            start.contains(x) && !nodes.contains(x) && !referred(start, nodes, x)
            implies after.object(x) == start.object(x) by {
            let _ = before.object(x);
            assert(x != nodes[done]);
            assert(start.referent(nodes[done]) != Some(x));
        }
    }
    assert(is_pending_chain(after, head_of(grown), grown)) by {
        if how.enqueues(start, reference) {
            assert forall|k: int| 0 <= k < grown.len() implies after.settled(
                #[trigger] grown[k],
            ) && after.discovered(grown[k]) == (if k + 1 < grown.len() {
                Some(grown[k + 1])
            } else {
                None
            }) by {
                if k > 0 {
                    assert(grown[k] == kept[k - 1]);
                }
            }
            assert forall|a: int, b: int|
                0 <= a < grown.len() && 0 <= b < grown.len() && a != b implies grown[a]
                != grown[b] by {
                if a > 0 {
                    assert(grown[a] == kept[a - 1]);
                }
                if b > 0 {
                    assert(grown[b] == kept[b - 1]);
                }
            }
        }
    }
}

/// What a walk has done when it has dealt with every member.
proof fn lemma_walk_end(
    how: Visit,
    start: &Heap,
    heap: &Heap,
    nodes: Seq<ObjectReference>,
    kept: Seq<ObjectReference>,
)
    requires
        walked(how, start, heap, nodes, nodes.len() as int, kept),
    ensures
        start.evolves(heap, nodes),
        !how.retraces() ==> same_headers(start, heap),
        forall|j: int| 0 <= j < nodes.len() ==> how.settles(start, heap, #[trigger] nodes[j]),
        forall|j: int|
            0 <= j < nodes.len() && !how.enqueues(start, #[trigger] nodes[j]) ==> heap.discovered(
                nodes[j],
            ) is None,
        kept == enqueued(how, start, nodes),
        within(kept, nodes),
        is_pending_chain(heap, head_of(kept), kept),
        others_untouched(start, heap, nodes),
        heap@.len() <= start@.len() + nodes.len(),
{
    reveal(walked);
    assert(nodes.take(nodes.len() as int) =~= nodes);
}

/// Walks the discovered list that starts at `head`, whose members are `nodes`.
///
/// Each member is looked up through its forwarding pointer, taken out of the
/// list (its `discovered` field is emptied), and handed to [`visit`]. The
/// members that are kept are linked into a new list, the last one visited
/// first, that ends in an empty `discovered` field. Returns the head and the
/// tail of the new list, or `None` when no member was kept.
pub fn iterate_list(
    heap: &mut Heap,
    head: ObjectReference,
    how: Visit,
    Ghost(nodes): Ghost<Seq<ObjectReference>>,
) -> (new_list: Option<(ObjectReference, ObjectReference)>)
    requires
        old(heap).wf(),
        is_discovered_chain(old(heap), Some(head), nodes),
    ensures
        final(heap).wf(),
        old(heap).evolves(final(heap), nodes),
        !how.retraces() ==> same_headers(old(heap), final(heap)),
        forall|j: int|
            0 <= j < nodes.len() ==> how.settles(old(heap), final(heap), #[trigger] nodes[j]),
        forall|j: int|
            0 <= j < nodes.len() && !how.enqueues(old(heap), #[trigger] nodes[j])
                ==> final(heap).discovered(nodes[j]) is None,
        within(enqueued(how, old(heap), nodes), nodes),
        new_list == (if enqueued(how, old(heap), nodes).len() == 0 {
            None
        } else {
            Some((enqueued(how, old(heap), nodes)[0], enqueued(how, old(heap), nodes).last()))
        }),
        is_pending_chain(
            final(heap),
            head_of(enqueued(how, old(heap), nodes)),
            enqueued(how, old(heap), nodes),
        ),
        others_untouched(old(heap), final(heap), nodes),
        final(heap)@.len() <= old(heap)@.len() + nodes.len(),
{
    let ghost start = *heap;
    let ghost mut done: int = 0;
    let ghost mut kept: Seq<ObjectReference> = Seq::empty();
    let mut new_head: Option<ObjectReference> = None;
    let mut new_tail: Option<ObjectReference> = None;
    let mut reference = head;
    proof {
        lemma_walk_start(how, &start, head, nodes);
    }
    loop
        invariant_except_break
            0 <= done < nodes.len(),
            heap.contains(reference),
            heap.resolve(reference) == nodes[done],
        invariant
            start.wf(),
            is_discovered_chain(&start, Some(head), nodes),
            heap.wf(),
            walked(how, &start, heap, nodes, done, kept),
            new_head == head_of(kept),
            new_tail == tail_of(kept),
        ensures
            done == nodes.len(),
        decreases nodes.len() - done,
    {
        proof {
            lemma_walk_at(how, &start, heap, head, nodes, done, kept);
        }
        // Follow the forwarding pointer of the reference itself.
        if let Some(forwarded) = heap.get_forwarded_object(reference) {
            reference = forwarded;
        }
        let ghost at_head = *heap;
        let ghost only = seq![reference];
        // Follow the forwarding pointer of its successor.
        let next_ref = get_next_reference(heap, reference);
        let next_ref = match next_ref {
            Some(x) => match heap.get_forwarded_object(x) {
                Some(forwarded) => Some(forwarded),
                None => Some(x),
            },
            None => None,
        };
        let end_of_list = match next_ref {
            Some(next) => next == reference,
            None => true,
        };
        // Take the reference out of the list it was discovered into.
        set_next_reference(heap, reference, None);
        if let Some(forwarded_ref) = heap.get_forwarded_object(reference) {
            set_next_reference(heap, forwarded_ref, None);
        }
        let ghost cleared = *heap;
        proof {
            assert(same_headers(&at_head, &cleared));
            if start.referent(reference) is Some {
                let r = start.referent(reference).unwrap();
                let _ = cleared.object(r);
                assert(how.keeps(&cleared, r) == how.keeps(&start, r));
            }
            assert(how.enqueues(&cleared, reference) == how.enqueues(&start, reference));
        }
        let result = visit(heap, reference, how);
        let ghost visited = *heap;
        proof {
            lemma_evolves_trans(&at_head, &cleared, &visited, only, only, only);
            assert(how.settles(&start, &visited, reference));
        }
        match result {
            DiscoveredListIterationResult::Remove => {},
            DiscoveredListIterationResult::Enqueue(reference) => {
                if let Some(new_head) = new_head {
                    proof {
                        assert(at_head.settled(kept[0]));
                    }
                    set_next_reference(heap, reference, Some(new_head));
                } else {
                    new_tail = Some(reference);
                }
                new_head = Some(reference);
            },
        }
        proof {
            lemma_evolves_trans(&at_head, &visited, heap, only, only, only);
            lemma_settles_stable(how, &start, &visited, heap, only, reference);
            if !how.retraces() {
                assert(same_headers(&at_head, heap));
            }
            lemma_walk_step(how, &start, &at_head, heap, head, nodes, done, kept);
            if how.enqueues(&start, reference) {
                kept = seq![reference] + kept;
            }
            done = done + 1;
        }
        // Was that the last member?
        if end_of_list {
            break ;
        }
        reference = next_ref.unwrap();
    }
    proof {
        lemma_walk_end(how, &start, heap, nodes, kept);
    }
    match new_head {
        None => None,
        Some(new_head) => Some((new_head, new_tail.unwrap())),
    }
}

/// A walk keeps exactly the members that it is to keep.
pub proof fn lemma_enqueued_members(how: Visit, heap: &Heap, nodes: Seq<ObjectReference>)
    ensures
        forall|x: ObjectReference|
            #[trigger] enqueued(how, heap, nodes).contains(x) <==> nodes.contains(x)
                && how.enqueues(heap, x),
        enqueued(how, heap, nodes).len() <= nodes.len(),
    decreases nodes.len(),
{
    let kept = enqueued(how, heap, nodes);
    if nodes.len() > 0 {
        let earlier = enqueued(how, heap, nodes.drop_last());
        lemma_enqueued_members(how, heap, nodes.drop_last());
        assert forall|x: ObjectReference| #[trigger]
            kept.contains(x) <==> nodes.contains(x) && how.enqueues(heap, x) by {
            if kept.contains(x) {
                let k = choose|k: int| 0 <= k < kept.len() && kept[k] == x;
                if how.enqueues(heap, nodes.last()) && k == 0 {
                    assert(nodes[nodes.len() - 1] == x);
                } else {
                    let kk = if how.enqueues(heap, nodes.last()) {
                        k - 1
                    } else {
                        k
                    };
                    assert(earlier[kk] == x);
                    assert(earlier.contains(x));
                    let j = choose|j: int|
                        0 <= j < nodes.drop_last().len() && nodes.drop_last()[j] == x;
                    assert(nodes[j] == x);
                }
            }
            if nodes.contains(x) && how.enqueues(heap, x) {
                let j = choose|j: int| 0 <= j < nodes.len() && nodes[j] == x;
                if j == nodes.len() - 1 {
                    assert(kept[0] == x);
                } else {
                    assert(nodes.drop_last()[j] == x);
                    assert(earlier.contains(x));
                    let k = choose|k: int| 0 <= k < earlier.len() && earlier[k] == x;
                    if how.enqueues(heap, nodes.last()) {
                        assert(kept[k + 1] == x);
                    } else {
                        assert(kept[k] == x);
                    }
                }
            }
        }
    }
}

/// A walk keeps the same members, in the same order, wherever it decides
/// alike on each of them.
pub proof fn lemma_enqueued_alike(how: Visit, a: &Heap, b: &Heap, nodes: Seq<ObjectReference>)
    requires
        forall|j: int|
            0 <= j < nodes.len() ==> how.enqueues(a, #[trigger] nodes[j]) == how.enqueues(
                b,
                nodes[j],
            ),
    ensures
        enqueued(how, a, nodes) == enqueued(how, b, nodes),
    decreases nodes.len(),
{
    if nodes.len() > 0 {
        let earlier = nodes.drop_last();
        assert forall|j: int| 0 <= j < earlier.len() implies how.enqueues(a, #[trigger] earlier[j])
            == how.enqueues(b, earlier[j]) by {
            assert(earlier[j] == nodes[j]);
        }
        lemma_enqueued_alike(how, a, b, earlier);
        assert(how.enqueues(a, nodes[nodes.len() - 1]) == how.enqueues(b, nodes[nodes.len() - 1]));
    }
}

} // verus!
