//! The item priority index: a max-priority queue of item handles keyed by
//! `(usize::MAX - available count, usize::MAX - item)`, so that the item with
//! the fewest available options (lowest handle on ties) comes out first.
use priority_queue::PriorityQueue;
use vstd::prelude::*;

verus! {

#[verifier::external_type_specification]
#[verifier::external_body]
#[verifier::reject_recursive_types(I)]
#[verifier::reject_recursive_types(P)]
#[verifier::reject_recursive_types(H)]
pub struct ExPriorityQueue<I, P, H>(PriorityQueue<I, P, H>);

/// Priority of an entry; larger pops first.
pub type Prio = (usize, usize);

/// The queue type used by the search.
pub type ItemQueue = PriorityQueue<usize, Prio>;

/// What the queue holds: each item with its priority.
pub uninterp spec fn queue_entries(q: ItemQueue) -> Map<usize, Prio>;

/// The contents of an empty queue.
pub open spec fn no_entries() -> Map<usize, Prio> {
    Map::empty()
}

/// Lexicographic order on priorities, as std orders tuples.
pub open spec fn prio_le(a: Prio, b: Prio) -> bool {
    a.0 < b.0 || (a.0 == b.0 && a.1 <= b.1)
}

/// Relies on PriorityQueue::new: the new queue is empty.
#[verifier::external_body]
pub(crate) fn queue_new() -> (r: ItemQueue)
    ensures
        queue_entries(r) == no_entries(),
{
    PriorityQueue::new()
}

/// Relies on PriorityQueue::push: inserts the item, or replaces the priority
/// of an item already present and returns the old one.
#[verifier::external_body]
pub(crate) fn queue_push(q: &mut ItemQueue, item: usize, p: Prio) -> (r: Option<Prio>)
    ensures
        queue_entries(*final(q)) == queue_entries(*old(q)).insert(item, p),
        r == (if queue_entries(*old(q)).contains_key(item) {
            Some(queue_entries(*old(q))[item])
        } else {
            None
        }),
{
    q.push(item, p)
}

/// Relies on PriorityQueue::pop: removes and returns an entry of greatest
/// priority, or None when the queue is empty.
#[verifier::external_body]
pub(crate) fn queue_pop(q: &mut ItemQueue) -> (r: Option<(usize, Prio)>)
    ensures
        r is None <==> queue_entries(*old(q)).is_empty(),
        r is None ==> queue_entries(*final(q)) == queue_entries(*old(q)),
        r matches Some((i, p)) ==> {
            &&& queue_entries(*old(q)).contains_key(i)
            &&& queue_entries(*old(q))[i] == p
            &&& queue_entries(*final(q)) == queue_entries(*old(q)).remove(i)
            &&& forall|j: usize| #[trigger]
                queue_entries(*old(q)).contains_key(j) ==> prio_le(queue_entries(*old(q))[j], p)
        },
{
    q.pop()
}

/// Relies on PriorityQueue::remove: takes the item out if it is present.
#[verifier::external_body]
pub(crate) fn queue_remove(q: &mut ItemQueue, item: usize) -> (r: Option<(usize, Prio)>)
    ensures
        queue_entries(*final(q)) == queue_entries(*old(q)).remove(item),
        r == (if queue_entries(*old(q)).contains_key(item) {
            Some((item, queue_entries(*old(q))[item]))
        } else {
            None
        }),
{
    q.remove(&item)
}

/// Relies on PriorityQueue::change_priority: sets the priority of an item
/// that is present and returns the old one; does nothing otherwise.
#[verifier::external_body]
pub(crate) fn queue_change_priority(q: &mut ItemQueue, item: usize, p: Prio) -> (r: Option<Prio>)
    ensures
        queue_entries(*old(q)).contains_key(item) ==> queue_entries(*final(q))
            == queue_entries(*old(q)).insert(item, p),
        !queue_entries(*old(q)).contains_key(item) ==> queue_entries(*final(q))
            == queue_entries(*old(q)),
        r == (if queue_entries(*old(q)).contains_key(item) {
            Some(queue_entries(*old(q))[item])
        } else {
            None
        }),
{
    q.change_priority(&item, p)
}

} // verus!
