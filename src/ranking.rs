//! Selection of the best-scoring documents through a priority queue.
use vstd::prelude::*;
use priority_queue::PriorityQueue;

verus! {

/// The number of results that a ranking reports.
pub const RESULT_SLOTS: usize = 5;

/// The priority queue of the priority-queue crate, opaque to proofs.
#[verifier::external_type_specification]
#[verifier::external_body]
#[verifier::reject_recursive_types(I)]
#[verifier::reject_recursive_types(P)]
#[verifier::reject_recursive_types(H)]
pub struct ExPriorityQueue<I, P, H>(PriorityQueue<I, P, H>);

/// The items of a queue, each with its priority.
pub uninterp spec fn queue_items(q: PriorityQueue<usize, i32>) -> Map<usize, i32>;

/// Relies on PriorityQueue::new: a queue with no items.
#[verifier::external_body]
fn new_queue() -> (r: PriorityQueue<usize, i32>)
    ensures
        queue_items(r).dom() == Set::<usize>::empty(),
{
    PriorityQueue::new()
}

/// Relies on PriorityQueue::push: the item is inserted with the priority, or,
/// when already present, its priority is replaced and the old one returned.
#[verifier::external_body]
fn push_item(q: &mut PriorityQueue<usize, i32>, item: usize, priority: i32) -> (r: Option<i32>)
    ensures
        queue_items(*final(q)) == queue_items(*old(q)).insert(item, priority),
        r == if queue_items(*old(q)).contains_key(item) {
            Some(queue_items(*old(q))[item])
        } else {
            None
        },
{
    q.push(item, priority)
}

/// Relies on PriorityQueue::pop: removes and returns an item of greatest
/// priority, or returns nothing when the queue is empty.
#[verifier::external_body]
fn pop_max(q: &mut PriorityQueue<usize, i32>) -> (r: Option<(usize, i32)>)
    ensures
        match r {
            None => queue_items(*old(q)).dom() == Set::<usize>::empty() && queue_items(*final(q))
                == queue_items(*old(q)),
            Some((i, p)) => {
                &&& queue_items(*old(q)).contains_key(i)
                &&& queue_items(*old(q))[i] == p
                &&& forall|j: usize| #[trigger]
                    queue_items(*old(q)).contains_key(j) ==> queue_items(*old(q))[j] <= p
                &&& queue_items(*final(q)) == queue_items(*old(q)).remove(i)
            },
        },
{
    q.pop()
}

/// Whether `j` is among the reported results.
pub open spec fn picked(out: Seq<Option<usize>>, j: usize) -> bool {
    exists|t: int| 0 <= t < out.len() && out[t] == Some(j)
}

/// `out` ranks the indices of `scores`: one slot per result, the first
/// `min(5, n)` holding distinct indices and the others empty, each reported
/// index scoring at least as high as every index not reported before it.
pub open spec fn top_ranking(scores: Seq<i32>, out: Seq<Option<usize>>) -> bool {
    &&& out.len() == RESULT_SLOTS
    &&& forall|t: int| 0 <= t < out.len() ==> ((#[trigger] out[t]) is Some <==> t < scores.len())
    &&& forall|t: int| #![auto] 0 <= t < out.len() && out[t] is Some ==> out[t]->0 < scores.len()
    &&& forall|t: int, u: int|
        0 <= t < u < out.len() && (#[trigger] out[t]) is Some ==> out[t] != #[trigger] out[u]
    &&& forall|t: int, j: usize|
        0 <= t < out.len() && (#[trigger] out[t]) is Some && j < scores.len() && !picked(
            out.subrange(0, t),
            j,
        ) ==> #[trigger] scores[j as int] <= scores[out[t]->0 as int]
}

/// Ranks the indices of `scores` from the highest score down and reports the
/// first five; where there are fewer than five, the remaining slots are empty.
/// Among equal scores the order is the queue's.
pub fn top_five(scores: &Vec<i32>) -> (r: Vec<Option<usize>>)
    ensures
        top_ranking(scores@, r@),
{
    let mut q = new_queue();
    let mut i: usize = 0;
    while i < scores.len()
        invariant
            i <= scores@.len(),
            queue_items(q) =~= Map::new(|j: usize| j < i, |j: usize| scores@[j as int]),
            queue_items(q).dom().finite(),
            queue_items(q).dom().len() == i,
        decreases scores.len() - i,
    {
        let ghost before = queue_items(q);
        push_item(&mut q, i, scores[i]);
        proof {
            assert(!before.dom().contains(i));
            assert(queue_items(q).dom() == before.dom().insert(i));
        }
        i = i + 1;
    }
    let n = scores.len();
    let mut out: Vec<Option<usize>> = Vec::new();
    while out.len() < RESULT_SLOTS
        invariant
            n == scores@.len(),
            out@.len() <= RESULT_SLOTS,
            queue_items(q) =~= Map::new(
                |j: usize| j < n && !picked(out@, j),
                |j: usize| scores@[j as int],
            ),
            queue_items(q).dom().finite(),
            queue_items(q).dom().len() == if out@.len() <= n { n - out@.len() } else { 0 },
            forall|t: int| 0 <= t < out@.len() ==> ((#[trigger] out@[t]) is Some <==> t < n),
            forall|t: int| #![auto] 0 <= t < out@.len() && out@[t] is Some ==> out@[t]->0 < n,
            forall|t: int, u: int|
                0 <= t < u < out@.len() && (#[trigger] out@[t]) is Some ==> out@[t] != #[trigger] out@[u],
            forall|t: int, j: usize|
                0 <= t < out@.len() && (#[trigger] out@[t]) is Some && j < n && !picked(
                    out@.subrange(0, t),
                    j,
                ) ==> #[trigger] scores@[j as int] <= scores@[out@[t]->0 as int],
        decreases RESULT_SLOTS - out.len(),
    {
        let ghost before = queue_items(q);
        let ghost prev = out@;
        match pop_max(&mut q) {
            Some((item, _)) => {
                out.push(Some(item));
                proof {
                    assert(out@.subrange(0, prev.len() as int) =~= prev);
                    assert forall|j: usize| picked(out@, j) <==> (picked(prev, j) || j == item) by {
                        if picked(out@, j) {
                            let t = choose|t: int| 0 <= t < out@.len() && out@[t] == Some(j);
                            if t < prev.len() {
                                assert(prev[t] == Some(j));
                            }
                        }
                        if picked(prev, j) {
                            let t = choose|t: int| 0 <= t < prev.len() && prev[t] == Some(j);
                            assert(out@[t] == Some(j));
                        }
                        if j == item {
                            assert(out@[prev.len() as int] == Some(j));
                        }
                    }
                    assert(queue_items(q) =~= Map::new(
                        |j: usize| j < n && !picked(out@, j),
                        |j: usize| scores@[j as int],
                    ));
                    if prev.len() >= n {
                        assert(before.dom().len() == 0);
                        assert(before.dom().contains(item));
                    }
                    assert forall|t: int, u: int|
                        0 <= t < u < out@.len() && (#[trigger] out@[t]) is Some implies out@[t]
                        != #[trigger] out@[u] by {
                        if u == prev.len() {
                            assert(out@[t] == prev[t]);
                            assert(!picked(prev, item));
                        } else {
                            assert(out@[t] == prev[t] && out@[u] == prev[u]);
                        }
                    }
                    assert forall|t: int, j: usize|
                        0 <= t < out@.len() && (#[trigger] out@[t]) is Some && j < n && !picked(
                            out@.subrange(0, t),
                            j,
                        ) implies #[trigger] scores@[j as int] <= scores@[out@[t]->0 as int] by {
                        if t < prev.len() {
                            assert(out@.subrange(0, t) =~= prev.subrange(0, t));
                        } else {
                            assert(out@.subrange(0, t) =~= prev);
                            assert(before.contains_key(j));
                        }
                    }
                }
            },
            None => {
                out.push(None);
                proof {
                    assert(out@.subrange(0, prev.len() as int) =~= prev);
                    assert(before.dom() =~= Set::<usize>::empty());
                    assert forall|j: usize| picked(out@, j) <==> picked(prev, j) by {
                        if picked(out@, j) {
                            let t = choose|t: int| 0 <= t < out@.len() && out@[t] == Some(j);
                            assert(t < prev.len());
                            assert(prev[t] == Some(j));
                        }
                        if picked(prev, j) {
                            let t = choose|t: int| 0 <= t < prev.len() && prev[t] == Some(j);
                            assert(out@[t] == Some(j));
                        }
                    }
                    assert forall|t: int, j: usize|
                        0 <= t < out@.len() && (#[trigger] out@[t]) is Some && j < n && !picked(
                            out@.subrange(0, t),
                            j,
                        ) implies #[trigger] scores@[j as int] <= scores@[out@[t]->0 as int] by {
                        assert(t < prev.len());
                        assert(out@.subrange(0, t) =~= prev.subrange(0, t));
                    }
                    assert forall|t: int, u: int|
                        0 <= t < u < out@.len() && (#[trigger] out@[t]) is Some implies out@[t]
                        != #[trigger] out@[u] by {
                        if u < prev.len() {
                            assert(out@[t] == prev[t] && out@[u] == prev[u]);
                        }
                    }
                }
            },
        }
    }
    out
}

} // verus!
