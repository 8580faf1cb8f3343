use vstd::prelude::*;

verus! {

/// A spring between two nodes, each named by its id.
#[derive(Clone, Copy, Debug, PartialEq, Eq, Structural)]
pub struct Edge {
    pub source: usize,
    pub target: usize,
}

/// The discrete state of a node: its id, and whether the user holds it. A held
/// node receives no force and is not moved by the integrator, but still acts
/// on the others.
#[derive(Clone, Copy, Debug, PartialEq, Eq, Structural)]
pub struct Circle {
    pub id: usize,
    pub dragging: bool,
}

impl Circle {
    /// A node with the given id that nobody holds.
    pub fn new(id: usize) -> (circle: Circle)
        ensures
            circle == (Circle { id, dragging: false }),
    {
        Circle { id, dragging: false }
    }
}

/// An edge endpoint that names no node: the position of the edge in the edge
/// list and the id that was not found.
#[derive(Clone, Copy, Debug, PartialEq, Eq, Structural)]
pub struct ReferenceError {
    pub edge: usize,
    pub node: usize,
}

/// The position of the first node whose id is `id`, or -1 if there is none.
pub open spec fn first_index(ids: Seq<usize>, id: usize) -> int
    decreases ids.len(),
{
    if ids.len() == 0 {
        -1
    } else if first_index(ids.drop_last(), id) >= 0 {
        first_index(ids.drop_last(), id)
    } else if ids.last() == id {
        ids.len() - 1
    } else {
        -1
    }
}

/// `first_index` is the least position that holds the id, and -1 exactly when
/// no position does.
pub proof fn lemma_first_index(ids: Seq<usize>, id: usize)
    ensures
        -1 <= first_index(ids, id) < ids.len(),
        first_index(ids, id) >= 0 ==> ids[first_index(ids, id)] == id,
        forall|k: int| 0 <= k < ids.len() && ids[k] == id ==> 0 <= first_index(ids, id) <= k,
        first_index(ids, id) == -1 <==> !ids.contains(id),
    decreases ids.len(),
{
    if ids.len() > 0 {
        let front = ids.drop_last();
        lemma_first_index(front, id);
        assert forall|k: int| 0 <= k < ids.len() && ids[k] == id implies 0 <= first_index(ids, id)
            <= k by {
            if k < front.len() {
                assert(front[k] == id);
            }
        }
        if first_index(ids, id) >= 0 {
            assert(ids[first_index(ids, id)] == id);
        }
    }
}

/// The ids of the nodes, in their order.
pub open spec fn circle_ids(circles: Seq<Circle>) -> Seq<usize> {
    Seq::new(circles.len(), |i: int| circles[i].id)
}

/// Looks a node up by its id: the position of the first node that carries it.
pub fn find_circle(circles: &Vec<Circle>, id: usize) -> (found: Option<usize>)
    ensures
        match found {
            Some(i) => i == first_index(circle_ids(circles@), id),
            None => first_index(circle_ids(circles@), id) == -1,
        },
{
    let ghost ids = circle_ids(circles@);
    let mut i: usize = 0;
    while i < circles.len()
        invariant
            0 <= i <= circles.len(),
            ids == circle_ids(circles@),
            first_index(ids.take(i as int), id) == -1,
        decreases circles.len() - i,
    {
        proof {
            assert(ids.take(i + 1).drop_last() =~= ids.take(i as int));
        }
        if circles[i].id == id {
            proof {
                lemma_first_index_prefix(ids, id, i + 1);
            }
            return Some(i);
        }
        i += 1;
    }
    proof {
        assert(ids.take(i as int) =~= ids);
    }
    None
}

/// Once a prefix holds the id, longer sequences find it at the same place.
pub proof fn lemma_first_index_prefix(ids: Seq<usize>, id: usize, n: int)
    requires
        0 <= n <= ids.len(),
        first_index(ids.take(n), id) >= 0,
    ensures
        first_index(ids, id) == first_index(ids.take(n), id),
    decreases ids.len() - n,
{
    if n < ids.len() {
        assert(ids.take(n + 1).drop_last() =~= ids.take(n));
        lemma_first_index_prefix(ids, id, n + 1);
    } else {
        assert(ids.take(n) =~= ids);
    }
}

/// Where no two nodes share an id, a lookup by the id of the node at position
/// `k` finds that very node.
pub proof fn lemma_unique_id_position(circles: Seq<Circle>, k: int)
    requires
        circle_ids(circles).no_duplicates(),
        0 <= k < circles.len(),
    ensures
        first_index(circle_ids(circles), circles[k].id) == k,
{
    let ids = circle_ids(circles);
    lemma_first_index(ids, circles[k].id);
    assert(ids[k] == circles[k].id);
}

/// Whether both ends of the edge name a node.
pub open spec fn resolves(circles: Seq<Circle>, edge: Edge) -> bool {
    circle_ids(circles).contains(edge.source) && circle_ids(circles).contains(edge.target)
}

/// The positions of the edge's two nodes, source first.
pub open spec fn resolved(circles: Seq<Circle>, edge: Edge) -> (usize, usize) {
    (
        first_index(circle_ids(circles), edge.source) as usize,
        first_index(circle_ids(circles), edge.target) as usize,
    )
}

/// The id that the edge names in vain: its source if that names no node, else
/// its target.
pub open spec fn missing_end(circles: Seq<Circle>, edge: Edge) -> usize {
    if circle_ids(circles).contains(edge.source) {
        edge.target
    } else {
        edge.source
    }
}

/// Turns every edge into the pair of positions of its two nodes. Fails on the
/// first edge with an end that names no node, and only then.
pub fn resolve_edges(circles: &Vec<Circle>, edges: &Vec<Edge>) -> (outcome: Result<
    Vec<(usize, usize)>,
    ReferenceError,
>)
    ensures
        match outcome {
            Ok(pairs) => {
                &&& pairs@.len() == edges@.len()
                &&& forall|k: int| 0 <= k < edges@.len() ==> resolves(circles@, #[trigger] edges@[k])
                &&& forall|k: int|
                    0 <= k < edges@.len() ==> #[trigger] pairs@[k] == resolved(circles@, edges@[k])
                &&& forall|k: int|
                    0 <= k < edges@.len() ==> (#[trigger] pairs@[k]).0 < circles@.len()
                        && pairs@[k].1 < circles@.len()
            },
            Err(e) => {
                &&& e.edge < edges@.len()
                &&& !resolves(circles@, edges@[e.edge as int])
                &&& e.node == missing_end(circles@, edges@[e.edge as int])
                &&& forall|k: int| 0 <= k < e.edge ==> resolves(circles@, #[trigger] edges@[k])
            },
        },
{
    let mut pairs: Vec<(usize, usize)> = Vec::new();
    let mut k: usize = 0;
    while k < edges.len()
        invariant
            0 <= k <= edges.len(),
            pairs@.len() == k,
            forall|j: int| 0 <= j < k ==> resolves(circles@, #[trigger] edges@[j]),
            forall|j: int| 0 <= j < k ==> #[trigger] pairs@[j] == resolved(circles@, edges@[j]),
            forall|j: int|
                0 <= j < k ==> (#[trigger] pairs@[j]).0 < circles@.len() && pairs@[j].1
                    < circles@.len(),
        decreases edges.len() - k,
    {
        let edge = edges[k];
        proof {
            lemma_first_index(circle_ids(circles@), edge.source);
            lemma_first_index(circle_ids(circles@), edge.target);
        }
        let source = match find_circle(circles, edge.source) {
            Some(i) => i,
            None => {
                return Err(ReferenceError { edge: k, node: edge.source });
            },
        };
        let target = match find_circle(circles, edge.target) {
            Some(i) => i,
            None => {
                return Err(ReferenceError { edge: k, node: edge.target });
            },
        };
        pairs.push((source, target));
        k += 1;
    }
    Ok(pairs)
}

} // verus!
