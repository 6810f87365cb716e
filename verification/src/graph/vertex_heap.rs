//! The queue that keeps the vertices of a graph by their degree.

use priority_queue::PriorityQueue;
use std::cmp::Reverse;
use vstd::prelude::*;

verus! {

/// The priority queue of the crate `priority_queue`. Nothing is known of
/// what is inside it but what [`degrees`] names.
#[verifier::external_type_specification]
#[verifier::external_body]
#[verifier::reject_recursive_types(I)]
#[verifier::reject_recursive_types(P)]
#[verifier::reject_recursive_types(H)]
pub struct ExPriorityQueue<I, P, H>(PriorityQueue<I, P, H>);

/// The wrapper `std::cmp::Reverse`, which turns the order of what it holds
/// round. The queue holds degrees in it, so that the least degree is the
/// greatest priority.
#[verifier::external_type_specification]
#[verifier::external_body]
#[verifier::reject_recursive_types(T)]
pub struct ExReverse<T>(Reverse<T>);

/// A queue of vertices that hands out a vertex of least degree first.
pub type VertexHeap = PriorityQueue<u32, Reverse<usize>>;

/// The degree that the queue holds for each of its vertices.
pub uninterp spec fn degrees(heap: VertexHeap) -> Map<u32, usize>;

/// A queue that holds no vertex, with room for `capacity` vertices.
///
/// Calls `PriorityQueue::with_capacity`, which creates an empty queue.
#[verifier::external_body]
pub(crate) fn heap_with_capacity(capacity: usize) -> (made: VertexHeap)
    ensures
        forall|v: u32| !degrees(made).contains_key(v),
{
    PriorityQueue::with_capacity(capacity)
}

/// Puts a vertex into the queue with a degree, or gives it that degree if
/// the queue holds it.
///
/// Calls `PriorityQueue::push` with the degree wrapped in `Reverse`. The
/// crate inserts the item with the priority, or updates the priority of the
/// item that it holds.
#[verifier::external_body]
pub(crate) fn heap_push(heap: &mut VertexHeap, vertex: u32, degree: usize)
    ensures
        degrees(*final(heap)) == degrees(*old(heap)).insert(vertex, degree),
{
    heap.push(vertex, Reverse(degree));
}

/// A vertex of least degree with its degree, or `None` if the queue is
/// empty.
///
/// Calls `PriorityQueue::peek`, which returns the pair of greatest
/// priority. With priorities wrapped in `Reverse` that is a pair of least
/// degree; which of several the crate picks is left open.
#[verifier::external_body]
pub(crate) fn heap_peek(heap: &VertexHeap) -> (least: Option<(u32, usize)>)
    ensures
        match least {
            Some((v, degree)) => {
                &&& degrees(*heap).contains_key(v)
                &&& degrees(*heap)[v] == degree
                &&& forall|w: u32| #[trigger] degrees(*heap).contains_key(w) ==> degree <= degrees(*heap)[w]
            },
            None => degrees(*heap) == Map::<u32, usize>::empty(),
        },
{
    heap.peek().map(|(v, r)| (*v, r.0))
}

/// Takes a vertex of least degree from the queue, or gives `None` if the
/// queue is empty.
///
/// Calls `PriorityQueue::pop`, which removes the pair of greatest priority
/// and returns it.
#[verifier::external_body]
pub(crate) fn heap_pop(heap: &mut VertexHeap) -> (least: Option<(u32, usize)>)
    ensures
        match least {
            Some((v, degree)) => {
                &&& degrees(*old(heap)).contains_key(v)
                &&& degrees(*old(heap))[v] == degree
                &&& forall|w: u32| #[trigger] degrees(*old(heap)).contains_key(w) ==> degree <= degrees(*old(heap))[w]
                &&& degrees(*final(heap)) == degrees(*old(heap)).remove(v)
            },
            None => {
                &&& degrees(*old(heap)) == Map::<u32, usize>::empty()
                &&& degrees(*final(heap)) == degrees(*old(heap))
            },
        },
{
    heap.pop().map(|(v, r)| (v, r.0))
}

/// Takes a vertex from the queue, if the queue holds it.
///
/// Calls `PriorityQueue::remove`, which removes the item and leaves the
/// others with their priorities.
#[verifier::external_body]
pub(crate) fn heap_remove(heap: &mut VertexHeap, vertex: u32)
    ensures
        degrees(*final(heap)) == degrees(*old(heap)).remove(vertex),
{
    heap.remove(&vertex);
}

/// The degree that the queue holds for a vertex, if it holds the vertex.
///
/// Calls `PriorityQueue::get_priority`, which returns the priority of the
/// item, or `None` if the item is not in the queue.
#[verifier::external_body]
pub(crate) fn heap_get(heap: &VertexHeap, vertex: u32) -> (degree: Option<usize>)
    ensures
        match degree {
            Some(degree) => degrees(*heap).contains_key(vertex) && degrees(*heap)[vertex] == degree,
            None => !degrees(*heap).contains_key(vertex),
        },
{
    heap.get_priority(&vertex).map(|r| r.0)
}

} // verus!
