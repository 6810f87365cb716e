//! Matchings of a graph with two sides, grown along augmenting paths.

use std::collections::{HashMap, HashSet};
use vstd::prelude::*;

use crate::graph::edge::{Edge, EdgeDestination};
use crate::graph::static_a::search::{Search, Searcher};
use crate::graph::Graphed;
use crate::utils::collections::{map_keys, set_items};

verus! {

/// The vertices of a graph on two sides: a search puts the vertex that
/// begins a component on the left, and each vertex that it comes to on the
/// side across from the one that it comes from.
pub struct Bipartite {
    left: HashSet<u32>,
    right: HashSet<u32>,
    handed: Ghost<Seq<(u32, u32)>>,
    begun: Ghost<Seq<u32>>,
}

impl Default for Bipartite {
    fn default() -> (made: Self)
        ensures
            made.left() == Set::<u32>::empty(),
            made.right() == Set::<u32>::empty(),
            made.handed() == Seq::<(u32, u32)>::empty(),
            made.begun() == Seq::<u32>::empty(),
    {
        Bipartite {
            left: HashSet::new(),
            right: HashSet::new(),
            handed: Ghost(Seq::empty()),
            begun: Ghost(Seq::empty()),
        }
    }
}

impl Bipartite {
    /// The vertices on the left.
    pub closed spec fn left(&self) -> Set<u32> {
        self.left@
    }

    /// The vertices on the right.
    pub closed spec fn right(&self) -> Set<u32> {
        self.right@
    }

    /// The vertices on the left.
    pub fn left_side(&self) -> (side: &HashSet<u32>)
        ensures
            side@ == self.left(),
    {
        &self.left
    }

    /// The vertices on the right.
    pub fn right_side(&self) -> (side: &HashSet<u32>)
        ensures
            side@ == self.right(),
    {
        &self.right
    }
}

impl Searcher<()> for Bipartite {
    open spec fn wf(&self) -> bool {
        true
    }

    closed spec fn handed(&self) -> Seq<(u32, u32)> {
        self.handed@
    }

    closed spec fn begun(&self) -> Seq<u32> {
        self.begun@
    }

    /// Puts the vertex on the left.
    fn new_component(&mut self, node: &u32)
        ensures
            final(self).left() == old(self).left().insert(*node),
            final(self).right() == old(self).right(),
    {
        broadcast use vstd::std_specs::hash::group_hash_axioms;

        self.left.insert(*node);
        proof {
            self.begun@ = self.begun@.push(*node);
        }
    }

    /// Puts the destination on the right if the source is on the left, and
    /// on the left if not.
    fn visit(&mut self, source: &u32, node: &EdgeDestination<u32, ()>)
        ensures
            old(self).left().contains(*source) ==> final(self).left() == old(self).left()
                && final(self).right() == old(self).right().insert(node.destination),
            !old(self).left().contains(*source) ==> final(self).right() == old(self).right()
                && final(self).left() == old(self).left().insert(node.destination),
    {
        broadcast use vstd::std_specs::hash::group_hash_axioms;

        if self.left.contains(source) {
            self.right.insert(node.destination);
        } else {
            self.left.insert(node.destination);
        }
        proof {
            self.handed@ = self.handed@.push((*source, node.destination));
        }
    }
}

/// One side of a matching as a map: each matched vertex of a side to its
/// partner on the other side.
pub type SideMatching = HashMap<u32, u32>;

/// Whether the graph has an edge from `u`, on the side, to `v`, across.
pub open spec fn crosses(adj: Map<u32, Set<u32>>, side: Set<u32>, u: u32, v: u32) -> bool {
    side.contains(u) && !side.contains(v) && adj.contains_key(u) && adj[u].contains(v)
}

/// Whether the pairs match vertices of the side with vertices across along
/// edges of the graph, no vertex twice.
pub open spec fn is_matching(adj: Map<u32, Set<u32>>, side: Set<u32>, pairs: Set<(u32, u32)>) -> bool {
    &&& forall|p: (u32, u32)| #[trigger] pairs.contains(p) ==> crosses(adj, side, p.0, p.1)
    &&& forall|p: (u32, u32), q: (u32, u32)|
        #[trigger] pairs.contains(p) && #[trigger] pairs.contains(q) && (p.0 == q.0 || p.1 == q.1)
            ==> p == q
}

/// Whether the steps are an augmenting path of the matching. Each step is
/// an edge from the side across; from where a step ends, a pair of the
/// matching leads to where the next begins. The first step begins, and the
/// last ends, at a vertex that is not matched.
pub open spec fn augmenting(
    adj: Map<u32, Set<u32>>,
    side: Set<u32>,
    pairs: Set<(u32, u32)>,
    steps: Seq<(u32, u32)>,
) -> bool {
    &&& steps.len() > 0
    &&& forall|k: int|
        0 <= k < steps.len() ==> crosses(adj, side, (#[trigger] steps[k]).0, steps[k].1)
    &&& forall|k: int|
        0 < k < steps.len() ==> pairs.contains(((#[trigger] steps[k]).0, steps[k - 1].1))
    &&& forall|v: u32| !(#[trigger] pairs.contains((steps[0].0, v)))
    &&& forall|u: u32| !(#[trigger] pairs.contains((u, steps.last().1)))
}

/// Whether the matching has an augmenting path.
pub open spec fn augmentable(adj: Map<u32, Set<u32>>, side: Set<u32>, pairs: Set<(u32, u32)>) -> bool {
    exists|steps: Seq<(u32, u32)>| augmenting(adj, side, pairs, steps)
}

/// Whether no vertex begins two of the steps, and none ends two.
pub open spec fn simple(steps: Seq<(u32, u32)>) -> bool {
    forall|j: int, k: int|
        0 <= j < k < steps.len() ==> (#[trigger] steps[j]).0 != (#[trigger] steps[k]).0
            && steps[j].1 != steps[k].1
}

/// Whether the two paths share no vertex on either side.
pub open spec fn apart(one: Seq<(u32, u32)>, other: Seq<(u32, u32)>) -> bool {
    forall|j: int, k: int|
        0 <= j < one.len() && 0 <= k < other.len() ==> (#[trigger] one[j]).0 != (
        #[trigger] other[k]).0 && one[j].1 != other[k].1
}

/// The pairs that a map from the matched vertices of the side holds.
pub open spec fn pairs_of(left: Map<u32, u32>) -> Set<(u32, u32)> {
    Set::new(|p: (u32, u32)| left.contains_key(p.0) && left[p.0] == p.1)
}

/// Whether the two maps hold the same pairs, one from the side and one
/// from across, each pair along an edge of the graph.
pub open spec fn sound(
    adj: Map<u32, Set<u32>>,
    side: Set<u32>,
    left: Map<u32, u32>,
    right: Map<u32, u32>,
) -> bool {
    &&& forall|u: u32| #[trigger]
        left.contains_key(u) ==> crosses(adj, side, u, left[u]) && right.contains_key(left[u])
            && right[left[u]] == u
    &&& forall|v: u32| #[trigger]
        right.contains_key(v) ==> left.contains_key(right[v]) && left[right[v]] == v
}

/// The pairs of two maps that hold the same pairs are a matching.
pub proof fn lemma_sound_is_matching(
    adj: Map<u32, Set<u32>>,
    side: Set<u32>,
    left: Map<u32, u32>,
    right: Map<u32, u32>,
)
    requires
        sound(adj, side, left, right),
    ensures
        is_matching(adj, side, pairs_of(left)),
{
    let pairs = pairs_of(left);
    assert forall|p: (u32, u32), q: (u32, u32)|
        #[trigger] pairs.contains(p) && #[trigger] pairs.contains(q) && (p.0 == q.0 || p.1
            == q.1) implies p == q by {
        assert(left.contains_key(p.0) && left.contains_key(q.0));
        assert(right[left[p.0]] == p.0 && right[left[q.0]] == q.0);
    }
}

/// Whether every edge from a vertex of `done` across ends at a matched
/// vertex whose partner is in `seen`.
spec fn closed(
    adj: Map<u32, Set<u32>>,
    side: Set<u32>,
    right: Map<u32, u32>,
    done: Set<u32>,
    seen: Set<u32>,
) -> bool {
    forall|u: u32, v: u32|
        done.contains(u) && #[trigger] crosses(adj, side, u, v) ==> right.contains_key(v)
            && seen.contains(right[v])
}

/// Along steps that begin at a vertex of a closed set, every step begins
/// in the set.
proof fn lemma_steps_stay(
    adj: Map<u32, Set<u32>>,
    side: Set<u32>,
    left: Map<u32, u32>,
    right: Map<u32, u32>,
    seen: Set<u32>,
    steps: Seq<(u32, u32)>,
    k: int,
)
    requires
        sound(adj, side, left, right),
        closed(adj, side, right, seen, seen),
        augmenting(adj, side, pairs_of(left), steps),
        seen.contains(steps[0].0),
        0 <= k < steps.len(),
    ensures
        seen.contains(steps[k].0),
    decreases k,
{
    if k > 0 {
        lemma_steps_stay(adj, side, left, right, seen, steps, k - 1);
        assert(crosses(adj, side, steps[k - 1].0, steps[k - 1].1));
        assert(pairs_of(left).contains((steps[k].0, steps[k - 1].1)));
        assert(left.contains_key(steps[k].0));
    }
}

/// A matching has no augmenting path where a closed set holds every
/// vertex of the side that is not matched.
proof fn lemma_closed_is_final(
    adj: Map<u32, Set<u32>>,
    side: Set<u32>,
    left: Map<u32, u32>,
    right: Map<u32, u32>,
    seen: Set<u32>,
)
    requires
        sound(adj, side, left, right),
        closed(adj, side, right, seen, seen),
        forall|u: u32|
            side.contains(u) && adj.contains_key(u) && !left.contains_key(u) ==> seen.contains(u),
    ensures
        !augmentable(adj, side, pairs_of(left)),
{
    let pairs = pairs_of(left);
    assert forall|steps: Seq<(u32, u32)>| !augmenting(adj, side, pairs, steps) by {
        if augmenting(adj, side, pairs, steps) {
            let first = steps[0].0;
            assert(crosses(adj, side, first, steps[0].1));
            if left.contains_key(first) {
                assert(pairs.contains((first, left[first])));
            }
            let last = steps.len() - 1;
            lemma_steps_stay(adj, side, left, right, seen, steps, last);
            assert(crosses(adj, side, steps[last].0, steps[last].1));
            let end = steps[last].1;
            assert(right.contains_key(end));
            assert(left.contains_key(right[end]) && left[right[end]] == end);
            assert(pairs.contains((right[end], end)));
            assert(steps.last().1 == end);
            assert(false);
        }
    }
}


/// Whether `u` is among the items of the queue from `head` on.
spec fn pending(queue: Seq<u32>, head: int, u: u32) -> bool {
    exists|i: int| head <= i < queue.len() && queue[i] == u
}

proof fn lemma_pending_push(queue: Seq<u32>, head: int, u: u32, pushed: u32)
    requires
        0 <= head <= queue.len(),
    ensures
        pending(queue, head, u) ==> pending(queue.push(pushed), head, u),
        pending(queue.push(pushed), head, pushed),
{
    let longer = queue.push(pushed);
    if pending(queue, head, u) {
        let i = choose|i: int| head <= i < queue.len() && queue[i] == u;
        assert(longer[i] == u);
    }
    assert(longer[queue.len() as int] == pushed);
}

proof fn lemma_pending_pop(queue: Seq<u32>, head: int, u: u32)
    requires
        0 <= head < queue.len(),
        pending(queue, head, u),
    ensures
        u == queue[head] || pending(queue, head + 1, u),
{
    let i = choose|i: int| head <= i < queue.len() && queue[i] == u;
    if i != head {
        assert(head + 1 <= i < queue.len() && queue[i] == u);
    }
}

/// Whether the steps lead from `root` to `end`: each step along an edge
/// from the side across to a matched vertex, whose partner begins the
/// next step, and the partner of the last is `end`. The steps begin at
/// vertices of `seen` that are not in `before`, no two at the same, and
/// none at `end`.
spec fn trail(
    adj: Map<u32, Set<u32>>,
    side: Set<u32>,
    right: Map<u32, u32>,
    root: u32,
    steps: Seq<(u32, u32)>,
    end: u32,
    seen: Set<u32>,
    before: Set<u32>,
) -> bool {
    &&& forall|k: int|
        0 <= k < steps.len() ==> {
            &&& crosses(adj, side, (#[trigger] steps[k]).0, steps[k].1)
            &&& right.contains_key(steps[k].1)
            &&& steps[k].0 != end
            &&& seen.contains(steps[k].0)
            &&& !before.contains(steps[k].0)
        }
    &&& forall|k: int| 0 < k < steps.len() ==> right[steps[k - 1].1] == (#[trigger] steps[k]).0
    &&& steps.len() == 0 ==> end == root
    &&& steps.len() > 0 ==> steps[0].0 == root && right[steps.last().1] == end
    &&& forall|j: int, k: int|
        0 <= j < k < steps.len() ==> (#[trigger] steps[j]).0 != (#[trigger] steps[k]).0
}

/// Whether the path goes from matched vertex to partner, up to its end,
/// which is not matched.
spec fn linked(right: Map<u32, u32>, path: Seq<(u32, u32)>) -> bool {
    &&& path.len() > 0
    &&& forall|k: int| 0 <= k < path.len() - 1 ==> right.contains_key((#[trigger] path[k]).1)
    &&& forall|k: int| 0 < k < path.len() ==> right[path[k - 1].1] == (#[trigger] path[k]).0
    &&& !right.contains_key(path.last().1)
}

/// Whether every step of the path begins in the set.
spec fn within(path: Seq<(u32, u32)>, seen: Set<u32>) -> bool {
    forall|k: int| 0 <= k < path.len() ==> seen.contains((#[trigger] path[k]).0)
}

/// Whether no step of the path begins in the set.
spec fn outside(path: Seq<(u32, u32)>, before: Set<u32>) -> bool {
    forall|k: int| 0 <= k < path.len() ==> !before.contains((#[trigger] path[k]).0)
}

proof fn lemma_trail_widens(
    adj: Map<u32, Set<u32>>,
    side: Set<u32>,
    right: Map<u32, u32>,
    root: u32,
    steps: Seq<(u32, u32)>,
    end: u32,
    seen: Set<u32>,
    before: Set<u32>,
    w: u32,
)
    requires
        trail(adj, side, right, root, steps, end, seen, before),
    ensures
        trail(adj, side, right, root, steps, end, seen.insert(w), before),
{
}

proof fn lemma_trail_grows(
    adj: Map<u32, Set<u32>>,
    side: Set<u32>,
    right: Map<u32, u32>,
    root: u32,
    steps: Seq<(u32, u32)>,
    u: u32,
    v: u32,
    seen: Set<u32>,
    before: Set<u32>,
)
    requires
        trail(adj, side, right, root, steps, u, seen, before),
        crosses(adj, side, u, v),
        right.contains_key(v),
        seen.contains(u),
        !before.contains(u),
        !seen.contains(right[v]),
    ensures
        trail(adj, side, right, root, steps.push((u, v)), right[v], seen.insert(right[v]), before),
{
    let longer = steps.push((u, v));
    let w = right[v];
    assert forall|k: int| 0 <= k < longer.len() implies {
        &&& crosses(adj, side, (#[trigger] longer[k]).0, longer[k].1)
        &&& right.contains_key(longer[k].1)
        &&& longer[k].0 != w
        &&& seen.insert(w).contains(longer[k].0)
        &&& !before.contains(longer[k].0)
    } by {
        if k < steps.len() {
            assert(longer[k] == steps[k]);
        }
    }
    assert forall|k: int| 0 < k < longer.len() implies right[longer[k - 1].1] == (
    #[trigger] longer[k]).0 by {
        assert(longer[k - 1] == steps[k - 1]);
        if k < steps.len() {
            assert(longer[k] == steps[k]);
        } else {
            assert(steps.last() == steps[k - 1]);
        }
    }
    if steps.len() > 0 {
        assert(longer[0] == steps[0]);
    }
    assert forall|j: int, k: int| 0 <= j < k < longer.len() implies (#[trigger] longer[j]).0 != (
    #[trigger] longer[k]).0 by {
        assert(longer[j] == steps[j]);
        if k < steps.len() {
            assert(longer[k] == steps[k]);
        }
    }
}

proof fn lemma_trail_ends(
    adj: Map<u32, Set<u32>>,
    side: Set<u32>,
    left: Map<u32, u32>,
    right: Map<u32, u32>,
    root: u32,
    steps: Seq<(u32, u32)>,
    u: u32,
    v: u32,
    seen: Set<u32>,
    before: Set<u32>,
)
    requires
        sound(adj, side, left, right),
        trail(adj, side, right, root, steps, u, seen, before),
        crosses(adj, side, u, v),
        !right.contains_key(v),
        !left.contains_key(root),
        seen.contains(u),
        !before.contains(u),
    ensures
        augmenting(adj, side, pairs_of(left), steps.push((u, v))),
        simple(steps.push((u, v))),
        linked(right, steps.push((u, v))),
        within(steps.push((u, v)), seen),
        outside(steps.push((u, v)), before),
{
    let path = steps.push((u, v));
    let pairs = pairs_of(left);
    let n = steps.len() as int;
    assert(path[n] == (u, v));
    assert(path.last() == (u, v));
    assert forall|k: int| 0 <= k < n implies #[trigger] path[k] == steps[k] by {}
    assert forall|k: int| 0 < k < path.len() implies right[path[k - 1].1] == (#[trigger] path[k]).0 by {
        assert(path[k - 1] == steps[k - 1]);
        if k == n {
            assert(steps.last() == steps[k - 1]);
        }
    }
    assert forall|k: int| 0 < k < path.len() implies pairs.contains(
        ((#[trigger] path[k]).0, path[k - 1].1),
    ) by {
        assert(path[k - 1] == steps[k - 1]);
        assert(right.contains_key(path[k - 1].1));
    }
    assert forall|k: int| 0 <= k < path.len() implies crosses(
        adj,
        side,
        (#[trigger] path[k]).0,
        path[k].1,
    ) by {
        if k < n {
            assert(path[k] == steps[k]);
        }
    }
    if n > 0 {
        assert(path[0] == steps[0]);
    }
    assert(path[0].0 == root);
    assert forall|x: u32| !(#[trigger] pairs.contains((x, path.last().1))) by {
        if pairs.contains((x, v)) {
            assert(left.contains_key(x));
        }
    }
    assert forall|j: int, k: int| 0 <= j < k < path.len() implies (#[trigger] path[j]).0 != (
    #[trigger] path[k]).0 && path[j].1 != path[k].1 by {
        assert(path[j] == steps[j]);
        assert(right[path[j].1] == path[j + 1].0);
        if k < n {
            assert(path[k] == steps[k]);
            assert(right[path[k].1] == path[k + 1].0);
            if j + 1 < n {
                assert(path[j + 1] == steps[j + 1]);
            }
            if k + 1 < n {
                assert(path[k + 1] == steps[k + 1]);
            }
        }
    }
    assert forall|k: int| 0 <= k < path.len() - 1 implies right.contains_key(
        (#[trigger] path[k]).1,
    ) by {
        assert(path[k] == steps[k]);
    }
    assert forall|k: int| 0 <= k < path.len() implies seen.contains((#[trigger] path[k]).0)
        && !before.contains(path[k].0) by {
        if k < n {
            assert(path[k] == steps[k]);
        }
    }
}

/// A copy of the steps.
fn copy_steps(steps: &Vec<(u32, u32)>) -> (copy: Vec<(u32, u32)>)
    ensures
        copy@ == steps@,
{
    let mut copy: Vec<(u32, u32)> = Vec::new();
    let mut at: usize = 0;
    while at < steps.len()
        invariant
            at <= steps.len(),
            copy@ == steps@.take(at as int),
        decreases steps.len() - at,
    {
        copy.push(steps[at]);
        at = at + 1;
        assert(copy@ =~= steps@.take(at as int));
    }
    assert(steps@.take(at as int) =~= steps@);
    copy
}


/// Whether the search from `root` has a trail to each vertex that it has
/// come to, and has put each of them in the queue once.
spec fn trailed(
    adj: Map<u32, Set<u32>>,
    side: Set<u32>,
    left: Map<u32, u32>,
    right: Map<u32, u32>,
    root: u32,
    trails: Map<u32, Vec<(u32, u32)>>,
    queue: Seq<u32>,
    seen: Set<u32>,
    before: Set<u32>,
) -> bool {
    &&& trails.dom().finite()
    &&& queue.len() == trails.dom().len()
    &&& forall|i: int| 0 <= i < queue.len() ==> trails.contains_key(#[trigger] queue[i])
    &&& forall|w: u32| #[trigger]
        trails.contains_key(w) ==> {
            &&& trail(adj, side, right, root, trails[w]@, w, seen, before)
            &&& w == root || left.contains_key(w)
            &&& seen.contains(w)
            &&& !before.contains(w)
            &&& side.contains(w)
            &&& adj.contains_key(w)
        }
}

proof fn lemma_trailed_visit(
    adj: Map<u32, Set<u32>>,
    side: Set<u32>,
    left: Map<u32, u32>,
    right: Map<u32, u32>,
    root: u32,
    trails: Map<u32, Vec<(u32, u32)>>,
    queue: Seq<u32>,
    seen: Set<u32>,
    before: Set<u32>,
    u: u32,
    v: u32,
    longer: Vec<(u32, u32)>,
)
    requires
        sound(adj, side, left, right),
        trailed(adj, side, left, right, root, trails, queue, seen, before),
        trails.contains_key(u),
        crosses(adj, side, u, v),
        right.contains_key(v),
        !seen.contains(right[v]),
        forall|x: u32| #[trigger] before.contains(x) ==> seen.contains(x),
        longer@ == trails[u]@.push((u, v)),
    ensures
        trailed(
            adj,
            side,
            left,
            right,
            root,
            trails.insert(right[v], longer),
            queue.push(right[v]),
            seen.insert(right[v]),
            before,
        ),
{
    let w = right[v];
    let grown = trails.insert(w, longer);
    let longer_queue = queue.push(w);
    assert(!trails.contains_key(w));
    assert(grown.dom() =~= trails.dom().insert(w));
    assert(left.contains_key(w));
    assert(crosses(adj, side, w, left[w]));
    assert forall|i: int| 0 <= i < longer_queue.len() implies grown.contains_key(
        #[trigger] longer_queue[i],
    ) by {
        if i < queue.len() {
            assert(longer_queue[i] == queue[i]);
        }
    }
    assert forall|x: u32| #[trigger] grown.contains_key(x) implies {
        &&& trail(adj, side, right, root, grown[x]@, x, seen.insert(w), before)
        &&& x == root || left.contains_key(x)
        &&& seen.insert(w).contains(x)
        &&& !before.contains(x)
        &&& side.contains(x)
        &&& adj.contains_key(x)
    } by {
        if x == w {
            lemma_trail_grows(adj, side, right, root, trails[u]@, u, v, seen, before);
        } else {
            assert(trails.contains_key(x));
            lemma_trail_widens(adj, side, right, root, trails[x]@, x, seen, before, w);
        }
    }
}

/// Whether each vertex that has been come to is either dealt with or
/// waits in the queue, and, where no path has been found yet, every edge
/// from a vertex dealt with leads to a matched vertex whose partner has
/// been come to.
spec fn swept(
    adj: Map<u32, Set<u32>>,
    side: Set<u32>,
    right: Map<u32, u32>,
    queue: Seq<u32>,
    head: int,
    done: Set<u32>,
    seen: Set<u32>,
    before: Set<u32>,
    none: bool,
) -> bool {
    &&& forall|u: u32| #[trigger] seen.contains(u) ==> done.contains(u) || pending(queue, head, u)
    &&& forall|u: u32| #[trigger] before.contains(u) ==> seen.contains(u)
    &&& none ==> closed(adj, side, right, done, seen)
}

proof fn lemma_swept_visit(
    adj: Map<u32, Set<u32>>,
    side: Set<u32>,
    right: Map<u32, u32>,
    queue: Seq<u32>,
    head: int,
    done: Set<u32>,
    seen: Set<u32>,
    before: Set<u32>,
    none: bool,
    w: u32,
)
    requires
        0 <= head <= queue.len(),
        swept(adj, side, right, queue, head, done, seen, before, none),
    ensures
        swept(adj, side, right, queue.push(w), head, done, seen.insert(w), before, none),
{
    assert forall|u: u32| #[trigger] seen.insert(w).contains(u) implies done.contains(u)
        || pending(queue.push(w), head, u) by {
        lemma_pending_push(queue, head, u, w);
        if u != w {
            assert(seen.contains(u));
        }
    }
}

proof fn lemma_swept_next(
    adj: Map<u32, Set<u32>>,
    side: Set<u32>,
    right: Map<u32, u32>,
    queue: Seq<u32>,
    head: int,
    done: Set<u32>,
    seen: Set<u32>,
    before: Set<u32>,
    none: bool,
)
    requires
        0 <= head < queue.len(),
        swept(adj, side, right, queue, head, done, seen, before, none),
        none ==> forall|v: u32| #[trigger]
            crosses(adj, side, queue[head], v) ==> right.contains_key(v) && seen.contains(right[v]),
    ensures
        swept(adj, side, right, queue, head + 1, done.insert(queue[head]), seen, before, none),
{
    assert forall|u: u32| #[trigger] seen.contains(u) implies done.insert(queue[head]).contains(u)
        || pending(queue, head + 1, u) by {
        if !done.contains(u) {
            lemma_pending_pop(queue, head, u);
        }
    }
}

/// Looks for an augmenting path from `root`, a vertex of the side that is
/// not matched, through vertices that no search has come to before, to a
/// vertex across that is not matched and ends no path found before.
fn search<G: Graphed>(
    graph: &G,
    side: &HashSet<u32>,
    left: &SideMatching,
    right: &SideMatching,
    root: u32,
    visited: &mut HashSet<u32>,
    taken: &mut HashSet<u32>,
) -> (found: Option<Vec<(u32, u32)>>)
    requires
        graph.wf(),
        sound(graph.adjacency(), side@, left@, right@),
        side@.contains(root),
        graph.adjacency().contains_key(root),
        !left@.contains_key(root),
        !old(visited)@.contains(root),
        old(taken)@ == Set::<u32>::empty() ==> closed(
            graph.adjacency(),
            side@,
            right@,
            old(visited)@,
            old(visited)@,
        ),
    ensures
        forall|u: u32| old(visited)@.contains(u) ==> final(visited)@.contains(u),
        final(visited)@.contains(root),
        match found {
            Some(path) => {
                &&& augmenting(graph.adjacency(), side@, pairs_of(left@), path@)
                &&& simple(path@)
                &&& linked(right@, path@)
                &&& within(path@, final(visited)@)
                &&& outside(path@, old(visited)@)
                &&& !old(taken)@.contains(path@.last().1)
                &&& final(taken)@ == old(taken)@.insert(path@.last().1)
            },
            None => {
                &&& final(taken)@ == old(taken)@
                &&& old(taken)@ == Set::<u32>::empty() ==> closed(
                    graph.adjacency(),
                    side@,
                    right@,
                    final(visited)@,
                    final(visited)@,
                )
            },
        },
{
    broadcast use vstd::std_specs::hash::group_hash_axioms;

    let ghost adj = graph.adjacency();
    let ghost before = visited@;
    let ghost none = taken@ == Set::<u32>::empty();
    let mut trails: HashMap<u32, Vec<(u32, u32)>> = HashMap::new();
    let mut queue: Vec<u32> = Vec::new();
    visited.insert(root);
    trails.insert(root, Vec::new());
    queue.push(root);
    let mut head: usize = 0;
    let ghost mut done = before;
    proof {
        assert(trails@.dom() =~= Set::<u32>::empty().insert(root));
        assert(queue@[0] == root);
        assert(pending(queue@, 0, root));
        assert forall|u: u32| #[trigger] visited@.contains(u) implies done.contains(u) || pending(
            queue@,
            0,
            u,
        ) by {}
    }
    while head < queue.len()
        invariant
            graph.wf(),
            adj == graph.adjacency(),
            sound(adj, side@, left@, right@),
            !left@.contains_key(root),
            none == (old(taken)@ == Set::<u32>::empty()),
            head <= queue.len(),
            taken@ == old(taken)@,
            before == old(visited)@,
            visited@.contains(root),
            trailed(adj, side@, left@, right@, root, trails@, queue@, visited@, before),
            swept(adj, side@, right@, queue@, head as int, done, visited@, before, none),
        decreases left@.dom().len() + 1 - head,
    {
        proof {
            assert(trails@.dom().subset_of(left@.dom().insert(root)));
            vstd::set_lib::lemma_len_subset(trails@.dom(), left@.dom().insert(root));
        }
        let u: u32 = queue[head];
        let trail_u = copy_steps(trails.get(&u).unwrap());
        let nbrs = match graph.get_neighbors(&u) {
            Some(set) => set_items(set),
            None => Vec::new(),
        };
        let mut at: usize = 0;
        while at < nbrs.len()
            invariant
                graph.wf(),
                adj == graph.adjacency(),
                sound(adj, side@, left@, right@),
                !left@.contains_key(root),
                none == (old(taken)@ == Set::<u32>::empty()),
                head < queue.len(),
                queue@[head as int] == u,
                taken@ == old(taken)@,
                before == old(visited)@,
                visited@.contains(root),
                trailed(adj, side@, left@, right@, root, trails@, queue@, visited@, before),
                swept(adj, side@, right@, queue@, head as int, done, visited@, before, none),
                trails@.contains_key(u),
                trails@[u]@ == trail_u@,
                at <= nbrs.len(),
                nbrs@.to_set() == adj[u],
                none ==> forall|j: int|
                    0 <= j < at && crosses(adj, side@, u, #[trigger] nbrs@[j])
                        ==> right@.contains_key(nbrs@[j]) && visited@.contains(right@[nbrs@[j]]),
            decreases nbrs.len() - at,
        {
            let v: u32 = nbrs[at];
            assert(nbrs@.to_set().contains(v));
            if !side.contains(&v) {
                assert(crosses(adj, side@, u, v));
                match right.get(&v) {
                    Some(partner) => {
                        let w: u32 = *partner;
                        if !visited.contains(&w) {
                            let mut longer = copy_steps(&trail_u);
                            longer.push((u, v));
                            proof {
                                lemma_trailed_visit(
                                    adj,
                                    side@,
                                    left@,
                                    right@,
                                    root,
                                    trails@,
                                    queue@,
                                    visited@,
                                    before,
                                    u,
                                    v,
                                    longer,
                                );
                                lemma_swept_visit(
                                    adj,
                                    side@,
                                    right@,
                                    queue@,
                                    head as int,
                                    done,
                                    visited@,
                                    before,
                                    none,
                                    w,
                                );
                            }
                            visited.insert(w);
                            trails.insert(w, longer);
                            queue.push(w);
                        }
                    },
                    None => {
                        if !taken.contains(&v) {
                            let mut path = copy_steps(&trail_u);
                            path.push((u, v));
                            taken.insert(v);
                            proof {
                                lemma_trail_ends(
                                    adj,
                                    side@,
                                    left@,
                                    right@,
                                    root,
                                    trail_u@,
                                    u,
                                    v,
                                    visited@,
                                    before,
                                );
                            }
                            return Some(path);
                        }
                    },
                }
            }
            at = at + 1;
        }
        proof {
            if none {
                assert forall|v: u32| #[trigger] crosses(adj, side@, u, v) implies right@.contains_key(
                    v,
                ) && visited@.contains(right@[v]) by {
                    assert(nbrs@.to_set().contains(v));
                    let j = choose|j: int| 0 <= j < nbrs@.len() && nbrs@[j] == v;
                    assert(crosses(adj, side@, u, nbrs@[j]));
                }
            }
            lemma_swept_next(adj, side@, right@, queue@, head as int, done, visited@, before, none);
            done = done.insert(u);
        }
        head = head + 1;
    }
    proof {
        if none {
            assert forall|u: u32, v: u32|
                visited@.contains(u) && #[trigger] crosses(adj, side@, u, v) implies right@.contains_key(
                v,
            ) && visited@.contains(right@[v]) by {
                assert(!pending(queue@, head as int, u));
                assert(done.contains(u));
            }
        }
    }
    None
}


/// A path found through vertices that no earlier search had come to, to an
/// end that no earlier path had taken, shares no vertex with an earlier
/// path.
proof fn lemma_found_apart(
    right: Map<u32, u32>,
    one: Seq<(u32, u32)>,
    other: Seq<(u32, u32)>,
    seen: Set<u32>,
    taken: Set<u32>,
)
    requires
        linked(right, one),
        within(one, seen),
        taken.contains(one.last().1),
        linked(right, other),
        outside(other, seen),
        !taken.contains(other.last().1),
    ensures
        apart(one, other),
{
    assert forall|j: int, k: int| 0 <= j < one.len() && 0 <= k < other.len() implies (
    #[trigger] one[j]).0 != (#[trigger] other[k]).0 && one[j].1 != other[k].1 by {
        if j < one.len() - 1 && k < other.len() - 1 {
            assert(right[one[j].1] == one[j + 1].0);
            assert(right[other[k].1] == other[k + 1].0);
        } else if j < one.len() - 1 {
            assert(right.contains_key(one[j].1));
            assert(other.last() == other[k]);
        } else if k < other.len() - 1 {
            assert(right.contains_key(other[k].1));
            assert(one.last() == one[j]);
        } else {
            assert(one.last() == one[j]);
            assert(other.last() == other[k]);
        }
    }
}

/// Augmenting paths of a matching, each as its steps from the side
/// across: the edges that the matching gains along the path.
///
/// The paths are simple and share no vertex, and there is one wherever
/// the matching has an augmenting path at all.
pub fn augmenting_paths<G: Graphed>(
    graph: &G,
    left_side: &HashSet<u32>,
    left: &SideMatching,
    right: &SideMatching,
) -> (paths: Vec<Vec<(u32, u32)>>)
    requires
        graph.wf(),
        sound(graph.adjacency(), left_side@, left@, right@),
    ensures
        forall|i: int|
            0 <= i < paths@.len() ==> augmenting(
                graph.adjacency(),
                left_side@,
                pairs_of(left@),
                (#[trigger] paths@[i])@,
            ) && simple(paths@[i]@),
        forall|i: int, j: int|
            0 <= i < j < paths@.len() ==> apart((#[trigger] paths@[i])@, (#[trigger] paths@[j])@),
        (paths@.len() == 0) == !augmentable(graph.adjacency(), left_side@, pairs_of(left@)),
{
    broadcast use vstd::std_specs::hash::group_hash_axioms;

    let ghost adj = graph.adjacency();
    let candidates = set_items(left_side);
    let mut visited: HashSet<u32> = HashSet::new();
    let mut taken: HashSet<u32> = HashSet::new();
    let mut paths: Vec<Vec<(u32, u32)>> = Vec::new();
    let mut at: usize = 0;
    while at < candidates.len()
        invariant
            graph.wf(),
            adj == graph.adjacency(),
            sound(adj, left_side@, left@, right@),
            at <= candidates.len(),
            candidates@.to_set() == left_side@,
            paths@.len() == 0 ==> taken@ == Set::<u32>::empty(),
            taken@ == Set::<u32>::empty() ==> closed(adj, left_side@, right@, visited@, visited@),
            forall|j: int|
                0 <= j < at && adj.contains_key(#[trigger] candidates@[j]) && !left@.contains_key(
                    candidates@[j],
                ) ==> visited@.contains(candidates@[j]),
            forall|i: int|
                0 <= i < paths@.len() ==> {
                    &&& augmenting(adj, left_side@, pairs_of(left@), (#[trigger] paths@[i])@)
                    &&& simple(paths@[i]@)
                    &&& linked(right@, paths@[i]@)
                    &&& within(paths@[i]@, visited@)
                    &&& taken@.contains(paths@[i]@.last().1)
                },
            forall|i: int, j: int|
                0 <= i < j < paths@.len() ==> apart(
                    (#[trigger] paths@[i])@,
                    (#[trigger] paths@[j])@,
                ),
        decreases candidates.len() - at,
    {
        let root: u32 = candidates[at];
        assert(candidates@.to_set().contains(root));
        if graph.get_neighbors(&root).is_some() && !left.contains_key(&root) && !visited.contains(
            &root,
        ) {
            let ghost seen_before = visited@;
            let ghost taken_before = taken@;
            let ghost paths_before = paths@;
            match search(graph, left_side, left, right, root, &mut visited, &mut taken) {
                Some(path) => {
                    proof {
                        assert forall|i: int| 0 <= i < paths_before.len() implies apart(
                            (#[trigger] paths_before[i])@,
                            path@,
                        ) by {
                            lemma_found_apart(
                                right@,
                                paths_before[i]@,
                                path@,
                                seen_before,
                                taken_before,
                            );
                        }
                    }
                    paths.push(path);
                    proof {
                        assert forall|i: int| 0 <= i < paths@.len() implies {
                            &&& augmenting(adj, left_side@, pairs_of(left@), (#[trigger] paths@[i])@)
                            &&& simple(paths@[i]@)
                            &&& linked(right@, paths@[i]@)
                            &&& within(paths@[i]@, visited@)
                            &&& taken@.contains(paths@[i]@.last().1)
                        } by {
                            if i < paths_before.len() {
                                assert(paths@[i] == paths_before[i]);
                            }
                        }
                        assert forall|i: int, j: int| 0 <= i < j < paths@.len() implies apart(
                            (#[trigger] paths@[i])@,
                            (#[trigger] paths@[j])@,
                        ) by {
                            assert(paths@[i] == paths_before[i]);
                            if j < paths_before.len() {
                                assert(paths@[j] == paths_before[j]);
                            }
                        }
                        assert(taken@.contains(path@.last().1));
                    }
                },
                None => {},
            }
        }
        at = at + 1;
    }
    proof {
        if paths@.len() == 0 {
            assert forall|u: u32|
                left_side@.contains(u) && adj.contains_key(u) && !left@.contains_key(
                    u,
                ) implies visited@.contains(u) by {
                assert(candidates@.to_set().contains(u));
                let j = choose|j: int| 0 <= j < candidates@.len() && candidates@[j] == u;
                assert(adj.contains_key(candidates@[j]));
            }
            lemma_closed_is_final(adj, left_side@, left@, right@, visited@);
        } else {
            assert(augmenting(adj, left_side@, pairs_of(left@), paths@[0]@));
        }
    }
    paths
}


/// The steps, each the other way round.
spec fn turned(path: Seq<(u32, u32)>) -> Seq<(u32, u32)> {
    Seq::new(path.len(), |k: int| (path[k].1, path[k].0))
}

/// The map after the first `upto` steps: each maps where it begins to
/// where it ends.
spec fn rewired(links: Map<u32, u32>, path: Seq<(u32, u32)>, upto: int) -> Map<u32, u32>
    decreases upto,
{
    if upto <= 0 {
        links
    } else {
        rewired(links, path, upto - 1).insert(path[upto - 1].0, path[upto - 1].1)
    }
}

/// Whether one of the first `upto` steps begins at `u`.
spec fn begins(path: Seq<(u32, u32)>, upto: int, u: u32) -> bool {
    exists|k: int| 0 <= k < upto && path[k].0 == u
}

proof fn lemma_begins_step(path: Seq<(u32, u32)>, upto: int, u: u32)
    requires
        0 < upto <= path.len(),
    ensures
        begins(path, upto, u) <==> begins(path, upto - 1, u) || path[upto - 1].0 == u,
{
    if begins(path, upto, u) {
        let k = choose|k: int| 0 <= k < upto && path[k].0 == u;
        if k < upto - 1 {
            assert(begins(path, upto - 1, u));
        }
    }
    if begins(path, upto - 1, u) {
        let k = choose|k: int| 0 <= k < upto - 1 && path[k].0 == u;
        assert(0 <= k < upto && path[k].0 == u);
    }
    if path[upto - 1].0 == u {
        assert(0 <= upto - 1 < upto && path[upto - 1].0 == u);
    }
}

/// What the map holds after the steps: at each vertex that begins a step,
/// where the step ends; at every other vertex, what it held.
proof fn lemma_rewired(links: Map<u32, u32>, path: Seq<(u32, u32)>, upto: int)
    requires
        simple(path),
        0 <= upto <= path.len(),
    ensures
        forall|k: int|
            0 <= k < upto ==> rewired(links, path, upto).contains_key((#[trigger] path[k]).0)
                && rewired(links, path, upto)[path[k].0] == path[k].1,
        forall|u: u32| #[trigger]
            rewired(links, path, upto).contains_key(u) <==> links.contains_key(u) || begins(
                path,
                upto,
                u,
            ),
        forall|u: u32| #[trigger]
            links.contains_key(u) && !begins(path, upto, u) ==> rewired(links, path, upto)[u]
                == links[u],
    decreases upto,
{
    if upto > 0 {
        lemma_rewired(links, path, upto - 1);
        let earlier = rewired(links, path, upto - 1);
        let now = rewired(links, path, upto);
        let step = path[upto - 1];
        assert(now == earlier.insert(step.0, step.1));
        assert forall|k: int| 0 <= k < upto implies now.contains_key((#[trigger] path[k]).0)
            && now[path[k].0] == path[k].1 by {
            if k < upto - 1 {
                assert(path[k].0 != path[upto - 1].0);
            }
        }
        assert forall|u: u32| #[trigger]
            now.contains_key(u) <==> links.contains_key(u) || begins(path, upto, u) by {
            lemma_begins_step(path, upto, u);
            assert(earlier.contains_key(u) <==> links.contains_key(u) || begins(path, upto - 1, u));
        }
        assert forall|u: u32| #[trigger]
            links.contains_key(u) && !begins(path, upto, u) implies now[u] == links[u] by {
            lemma_begins_step(path, upto, u);
        }
    } else {
        assert forall|u: u32| !begins(path, upto, u) by {}
    }
}

proof fn lemma_turned(path: Seq<(u32, u32)>)
    ensures
        turned(path).len() == path.len(),
        forall|k: int|
            0 <= k < path.len() ==> (#[trigger] turned(path)[k]) == (path[k].1, path[k].0),
        simple(path) ==> simple(turned(path)),
{
    let back = turned(path);
    if simple(path) {
        assert forall|j: int, k: int| 0 <= j < k < back.len() implies (#[trigger] back[j]).0 != (
        #[trigger] back[k]).0 && back[j].1 != back[k].1 by {
            assert(path[j].0 != path[k].0 && path[j].1 != path[k].1);
        }
    }
}

/// A matching changed along one of its augmenting paths is a matching
/// again, and matches one vertex more.
proof fn lemma_augment(
    adj: Map<u32, Set<u32>>,
    side: Set<u32>,
    left: Map<u32, u32>,
    right: Map<u32, u32>,
    path: Seq<(u32, u32)>,
)
    requires
        sound(adj, side, left, right),
        augmenting(adj, side, pairs_of(left), path),
        simple(path),
    ensures
        sound(
            adj,
            side,
            rewired(left, path, path.len() as int),
            rewired(right, turned(path), path.len() as int),
        ),
        forall|u: u32|
            left.contains_key(u) ==> #[trigger] rewired(left, path, path.len() as int).contains_key(
                u,
            ),
        rewired(left, path, path.len() as int).contains_key(path[0].0),
        !left.contains_key(path[0].0),
{
    let n = path.len() as int;
    let back = turned(path);
    let left_after = rewired(left, path, n);
    let right_after = rewired(right, back, n);
    let pairs = pairs_of(left);
    lemma_turned(path);
    lemma_rewired(left, path, n);
    lemma_rewired(right, back, n);
    if left.contains_key(path[0].0) {
        assert(pairs.contains((path[0].0, left[path[0].0])));
    }
    assert(begins(path, n, path[0].0));
    assert forall|u: u32| #[trigger] left_after.contains_key(u) implies crosses(
        adj,
        side,
        u,
        left_after[u],
    ) && right_after.contains_key(left_after[u]) && right_after[left_after[u]] == u by {
        if begins(path, n, u) {
            let k = choose|k: int| 0 <= k < n && path[k].0 == u;
            assert(left_after[path[k].0] == path[k].1);
            assert(back[k] == (path[k].1, path[k].0));
            assert(right_after.contains_key(back[k].0) && right_after[back[k].0] == back[k].1);
            assert(crosses(adj, side, path[k].0, path[k].1));
        } else {
            assert(left.contains_key(u));
            let v = left[u];
            assert(left_after[u] == v);
            assert(right.contains_key(v) && right[v] == u);
            if begins(back, n, v) {
                let k = choose|k: int| 0 <= k < n && back[k].0 == v;
                assert(back[k] == (path[k].1, path[k].0));
                if k == n - 1 {
                    assert(path.last() == path[k]);
                    assert(pairs.contains((u, v)));
                    assert(false);
                } else {
                    assert(pairs.contains((path[k + 1].0, path[k].1)));
                    assert(left.contains_key(path[k + 1].0));
                    assert(right[left[path[k + 1].0]] == path[k + 1].0);
                    assert(begins(path, n, u));
                    assert(false);
                }
            }
            assert(right_after[v] == right[v]);
        }
    }
    assert forall|v: u32| #[trigger] right_after.contains_key(v) implies left_after.contains_key(
        right_after[v],
    ) && left_after[right_after[v]] == v by {
        if begins(back, n, v) {
            let k = choose|k: int| 0 <= k < n && back[k].0 == v;
            assert(back[k] == (path[k].1, path[k].0));
            assert(right_after[back[k].0] == back[k].1);
            assert(left_after[path[k].0] == path[k].1);
        } else {
            assert(right.contains_key(v));
            let u = right[v];
            assert(right_after[v] == u);
            assert(left.contains_key(u) && left[u] == v);
            if begins(path, n, u) {
                let k = choose|k: int| 0 <= k < n && path[k].0 == u;
                if k == 0 {
                    assert(pairs.contains((path[0].0, v)));
                    assert(false);
                } else {
                    assert(pairs.contains((path[k].0, path[k - 1].1)));
                    assert(back[k - 1] == (path[k - 1].1, path[k - 1].0));
                    assert(begins(back, n, v));
                    assert(false);
                }
            }
            assert(left_after[u] == left[u]);
        }
    }
}

/// An augmenting path stays one when the matching is changed along
/// another that shares no vertex with it.
proof fn lemma_augment_keeps(
    adj: Map<u32, Set<u32>>,
    side: Set<u32>,
    left: Map<u32, u32>,
    right: Map<u32, u32>,
    path: Seq<(u32, u32)>,
    other: Seq<(u32, u32)>,
)
    requires
        sound(adj, side, left, right),
        simple(path),
        augmenting(adj, side, pairs_of(left), other),
        apart(path, other),
    ensures
        augmenting(adj, side, pairs_of(rewired(left, path, path.len() as int)), other),
{
    let n = path.len() as int;
    let left_after = rewired(left, path, n);
    let pairs = pairs_of(left);
    let pairs_after = pairs_of(left_after);
    lemma_rewired(left, path, n);
    assert forall|k: int| 0 <= k < other.len() implies !begins(path, n, (#[trigger] other[k]).0) by {
        if begins(path, n, other[k].0) {
            let j = choose|j: int| 0 <= j < n && path[j].0 == other[k].0;
            assert(path[j].0 != other[k].0);
        }
    }
    assert forall|k: int| 0 < k < other.len() implies pairs_after.contains(
        ((#[trigger] other[k]).0, other[k - 1].1),
    ) by {
        assert(pairs.contains((other[k].0, other[k - 1].1)));
        assert(left.contains_key(other[k].0));
    }
    assert forall|v: u32| !(#[trigger] pairs_after.contains((other[0].0, v))) by {
        if left_after.contains_key(other[0].0) {
            assert(left.contains_key(other[0].0));
            assert(pairs.contains((other[0].0, left[other[0].0])));
        }
    }
    assert forall|u: u32| !(#[trigger] pairs_after.contains((u, other.last().1))) by {
        if pairs_after.contains((u, other.last().1)) {
            assert(left_after.contains_key(u));
            if begins(path, n, u) {
                let j = choose|j: int| 0 <= j < n && path[j].0 == u;
                assert(left_after[path[j].0] == path[j].1);
                assert(path[j].1 != other[other.len() - 1].1);
            } else {
                assert(left.contains_key(u));
                assert(pairs.contains((u, other.last().1)));
            }
        }
    }
}

/// Changes the matching along the path: each vertex that begins a step is
/// matched with the vertex where the step ends.
fn augment(left: &mut SideMatching, right: &mut SideMatching, path: &Vec<(u32, u32)>)
    ensures
        final(left)@ == rewired(old(left)@, path@, path@.len() as int),
        final(right)@ == rewired(old(right)@, turned(path@), path@.len() as int),
{
    broadcast use vstd::std_specs::hash::group_hash_axioms;

    let mut at: usize = 0;
    while at < path.len()
        invariant
            at <= path.len(),
            left@ == rewired(old(left)@, path@, at as int),
            right@ == rewired(old(right)@, turned(path@), at as int),
        decreases path.len() - at,
    {
        let step: (u32, u32) = path[at];
        proof {
            lemma_turned(path@);
        }
        left.insert(step.0, step.1);
        right.insert(step.1, step.0);
        at = at + 1;
    }
}


/// The pairs that the edges hold, each from the edge's first vertex to its
/// second.
pub open spec fn pairs_in(edges: Seq<Edge<u32, ()>>) -> Set<(u32, u32)> {
    Set::new(
        |p: (u32, u32)|
            exists|i: int|
                0 <= i < edges.len() && (#[trigger] edges[i]).first() == p.0 && edges[i].second()
                    == p.1,
    )
}

/// Whether the edges are a matching between the side and the vertices
/// across that cannot be made larger: there is no augmenting path. No
/// two of the edges are the same.
pub open spec fn matched_fully(
    adj: Map<u32, Set<u32>>,
    side: Set<u32>,
    edges: Seq<Edge<u32, ()>>,
) -> bool {
    &&& is_matching(adj, side, pairs_in(edges))
    &&& !augmentable(adj, side, pairs_in(edges))
    &&& forall|i: int, j: int|
        0 <= i < j < edges.len() ==> (#[trigger] edges[i]).first() != (#[trigger] edges[j]).first()
}

/// A matching between the vertices of `left_side` and the vertices
/// across, grown from the empty matching along augmenting paths until
/// there is none. Each edge goes from its vertex on the side to its
/// vertex across.
pub fn maximum_matching<G: Graphed>(graph: &G, left_side: &HashSet<u32>) -> (matching: Vec<
    Edge<u32, ()>,
>)
    requires
        graph.wf(),
    ensures
        matched_fully(graph.adjacency(), left_side@, matching@),
{
    broadcast use vstd::std_specs::hash::group_hash_axioms;

    let ghost adj = graph.adjacency();
    let mut left: SideMatching = HashMap::new();
    let mut right: SideMatching = HashMap::new();
    proof {
        graph.lemma_finite();
    }
    let mut paths = augmenting_paths(graph, left_side, &left, &right);
    while paths.len() > 0
        invariant
            graph.wf(),
            adj == graph.adjacency(),
            adj.dom().finite(),
            sound(adj, left_side@, left@, right@),
            forall|i: int|
                0 <= i < paths@.len() ==> augmenting(
                    adj,
                    left_side@,
                    pairs_of(left@),
                    (#[trigger] paths@[i])@,
                ) && simple(paths@[i]@),
            forall|i: int, j: int|
                0 <= i < j < paths@.len() ==> apart(
                    (#[trigger] paths@[i])@,
                    (#[trigger] paths@[j])@,
                ),
            (paths@.len() == 0) == !augmentable(adj, left_side@, pairs_of(left@)),
        decreases adj.dom().len() - left@.dom().len(),
    {
        let ghost start = left@;
        let ghost gained = paths@[0]@[0].0;
        proof {
            assert(augmenting(adj, left_side@, pairs_of(start), paths@[0]@));
            if start.contains_key(gained) {
                assert(pairs_of(start).contains((gained, start[gained])));
            }
        }
        let mut at: usize = 0;
        while at < paths.len()
            invariant
                at <= paths.len(),
                paths.len() > 0,
                sound(adj, left_side@, left@, right@),
                forall|i: int|
                    at <= i < paths@.len() ==> augmenting(
                        adj,
                        left_side@,
                        pairs_of(left@),
                        (#[trigger] paths@[i])@,
                    ),
                forall|i: int| 0 <= i < paths@.len() ==> simple((#[trigger] paths@[i])@),
                forall|i: int, j: int|
                    0 <= i < j < paths@.len() ==> apart(
                        (#[trigger] paths@[i])@,
                        (#[trigger] paths@[j])@,
                    ),
                forall|u: u32| start.contains_key(u) ==> left@.contains_key(u),
                gained == paths@[0]@[0].0,
                at > 0 ==> left@.contains_key(gained),
            decreases paths.len() - at,
        {
            let ghost left_before = left@;
            let ghost right_before = right@;
            augment(&mut left, &mut right, &paths[at]);
            proof {
                let path = paths@[at as int]@;
                lemma_augment(adj, left_side@, left_before, right_before, path);
                assert forall|i: int| at + 1 <= i < paths@.len() implies augmenting(
                    adj,
                    left_side@,
                    pairs_of(left@),
                    (#[trigger] paths@[i])@,
                ) by {
                    assert(apart(paths@[at as int]@, paths@[i]@));
                    lemma_augment_keeps(
                        adj,
                        left_side@,
                        left_before,
                        right_before,
                        path,
                        paths@[i]@,
                    );
                }
            }
            at = at + 1;
        }
        proof {
            assert(start.dom().insert(gained).subset_of(left@.dom()));
            vstd::set_lib::lemma_len_subset(start.dom().insert(gained), left@.dom());
            assert(left@.dom().subset_of(adj.dom()));
            vstd::set_lib::lemma_len_subset(left@.dom(), adj.dom());
        }
        paths = augmenting_paths(graph, left_side, &left, &right);
    }
    let keys = map_keys(&left);
    let mut matching: Vec<Edge<u32, ()>> = Vec::new();
    let mut at: usize = 0;
    while at < keys.len()
        invariant
            at <= keys.len(),
            matching@.len() == at,
            keys@.to_set() == left@.dom(),
            keys@.no_duplicates(),
            forall|i: int|
                0 <= i < at ==> (#[trigger] matching@[i]).first() == keys@[i] && left@.contains_key(
                    keys@[i],
                ) && matching@[i].second() == left@[keys@[i]],
        decreases keys.len() - at,
    {
        let u: u32 = keys[at];
        assert(keys@.to_set().contains(u));
        let v: u32 = *left.get(&u).unwrap();
        matching.push(Edge::init(u, v));
        at = at + 1;
    }
    proof {
        let pairs = pairs_in(matching@);
        assert forall|p: (u32, u32)| pairs.contains(p) <==> pairs_of(left@).contains(p) by {
            if pairs_of(left@).contains(p) {
                assert(keys@.to_set().contains(p.0));
                let i = choose|i: int| 0 <= i < keys@.len() && keys@[i] == p.0;
                assert(matching@[i].first() == p.0 && matching@[i].second() == p.1);
            }
        }
        assert(pairs =~= pairs_of(left@));
        lemma_sound_is_matching(adj, left_side@, left@, right@);
    }
    matching
}

/// Finding augmenting paths of a matching in a graph.
pub trait AugmentingPath: Graphed {
    /// Augmenting paths of the matching that the two maps hold, one from
    /// the side and one from across: simple paths that share no vertex,
    /// and at least one wherever the matching has an augmenting path.
    fn find_augmenting_paths(
        &self,
        left_side: &HashSet<u32>,
        matching: (&SideMatching, &SideMatching),
    ) -> (paths: Vec<Vec<(u32, u32)>>)
        requires
            self.wf(),
            sound(self.adjacency(), left_side@, matching.0@, matching.1@),
        ensures
            forall|i: int|
                0 <= i < paths@.len() ==> augmenting(
                    self.adjacency(),
                    left_side@,
                    pairs_of(matching.0@),
                    (#[trigger] paths@[i])@,
                ) && simple(paths@[i]@),
            forall|i: int, j: int|
                0 <= i < j < paths@.len() ==> apart(
                    (#[trigger] paths@[i])@,
                    (#[trigger] paths@[j])@,
                ),
            (paths@.len() == 0) == !augmentable(self.adjacency(), left_side@, pairs_of(matching.0@)),
    ;
}

impl<G: Graphed> AugmentingPath for G {
    fn find_augmenting_paths(
        &self,
        left_side: &HashSet<u32>,
        matching: (&SideMatching, &SideMatching),
    ) -> (paths: Vec<Vec<(u32, u32)>>) {
        augmenting_paths(self, left_side, matching.0, matching.1)
    }
}

/// A value that stands for nothing.
pub trait Nil: Sized {
    fn nil() -> Self;
}

/// Matchings of a graph.
pub trait MatchingT: Graphed {
    /// A matching between the vertices of one side and the vertices
    /// across that no augmenting path makes larger.
    ///
    /// The side is `left` where it is given. Where it is not, it is the
    /// left side that a breadth first search finds from a vertex of the
    /// graph.
    fn hopkroft_karp(&self, left: Option<HashSet<u32>>) -> (matching: Vec<Edge<u32, ()>>)
        requires
            self.wf(),
        ensures
            match left {
                Some(side) => matched_fully(self.adjacency(), side@, matching@),
                None => exists|side: Set<u32>| matched_fully(self.adjacency(), side, matching@),
            },
    ;
}

impl<G: Graphed> MatchingT for G {
    fn hopkroft_karp(&self, left: Option<HashSet<u32>>) -> (matching: Vec<Edge<u32, ()>>) {
        match left {
            Some(side) => maximum_matching(self, &side),
            None => {
                let mut bipartite = Bipartite::default();
                let vertices = self.vertices();
                let mut start: Vec<u32> = Vec::new();
                if vertices.len() > 0 {
                    start.push(vertices[0]);
                }
                self.breadth_first(&mut bipartite, start);
                let matching = maximum_matching(self, bipartite.left_side());
                assert(matched_fully(self.adjacency(), bipartite.left(), matching@));
                matching
            },
        }
    }
}


} // verus!
