use crate::graph::Circle;
use crate::grid::SpatialGrid;
use vstd::prelude::*;

verus! {

/// `candidates` without every occurrence of `own`, the rest in order.
pub open spec fn without(candidates: Seq<usize>, own: usize) -> Seq<usize>
    decreases candidates.len(),
{
    if candidates.len() == 0 {
        Seq::empty()
    } else if candidates.last() == own {
        without(candidates.drop_last(), own)
    } else {
        without(candidates.drop_last(), own).push(candidates.last())
    }
}

/// `without` keeps exactly the candidates other than `own`, and invents no
/// repetition.
pub proof fn lemma_without(candidates: Seq<usize>, own: usize)
    ensures
        forall|x: usize|
            #![trigger without(candidates, own).contains(x)]
            #![trigger candidates.contains(x)]
            without(candidates, own).contains(x) <==> candidates.contains(x) && x != own,
        candidates.no_duplicates() ==> without(candidates, own).no_duplicates(),
        without(candidates, own).len() <= candidates.len(),
    decreases candidates.len(),
{
    if candidates.len() > 0 {
        let front = candidates.drop_last();
        let last = candidates.last();
        let kept = without(front, own);
        let all = without(candidates, own);
        lemma_without(front, own);
        assert forall|x: usize|
            #![trigger all.contains(x)]
            #![trigger candidates.contains(x)]
            all.contains(x) <==> candidates.contains(x) && x != own by {
            if all.contains(x) {
                let i = choose|i: int| 0 <= i < all.len() && all[i] == x;
                if i < kept.len() {
                    assert(kept[i] == x);
                    assert(kept.contains(x));
                    let j = choose|j: int| 0 <= j < front.len() && front[j] == x;
                    assert(candidates[j] == x);
                } else {
                    assert(candidates[candidates.len() - 1] == x);
                }
            }
            if candidates.contains(x) && x != own {
                let j = choose|j: int| 0 <= j < candidates.len() && candidates[j] == x;
                if j < front.len() {
                    assert(front[j] == x);
                    assert(kept.contains(x));
                    let i = choose|i: int| 0 <= i < kept.len() && kept[i] == x;
                    assert(all[i] == x);
                } else {
                    assert(all[all.len() - 1] == x);
                }
            }
        }
        if candidates.no_duplicates() {
            assert(front.no_duplicates());
            if last != own {
                assert(!kept.contains(last)) by {
                    if kept.contains(last) {
                        let j = choose|j: int| 0 <= j < front.len() && front[j] == last;
                        assert(candidates[j] == candidates[candidates.len() - 1]);
                    }
                }
            }
        }
    }
}

/// The nodes whose gravity and repulsion act on node `own`, which stands in
/// cell `(cx, cy)`: none if the node is held or `own` is no position of
/// `circles`; otherwise every node of the 3x3 block of cells around it but
/// itself, in the order in which the grid hands them out.
pub open spec fn partners(
    circles: Seq<Circle>,
    grid: SpatialGrid,
    own: usize,
    cx: int,
    cy: int,
) -> Seq<usize> {
    if own < circles.len() && !circles[own as int].dragging {
        without(grid.neighbourhood(cx, cy), own)
    } else {
        Seq::empty()
    }
}

/// Chooses the nodes whose gravity and repulsion are to be added to the
/// velocity of node `own`, which stands in cell `(cx, cy)`.
pub fn interaction_partners(
    circles: &Vec<Circle>,
    grid: &SpatialGrid,
    own: usize,
    cx: i32,
    cy: i32,
) -> (chosen: Vec<usize>)
    ensures
        chosen@ == partners(circles@, *grid, own, cx as int, cy as int),
{
    let mut chosen: Vec<usize> = Vec::new();
    if own >= circles.len() || circles[own].dragging {
        return chosen;
    }
    let candidates = grid.query(cx, cy);
    let mut k: usize = 0;
    while k < candidates.len()
        invariant
            0 <= k <= candidates.len(),
            chosen@ == without(candidates@.take(k as int), own),
        decreases candidates.len() - k,
    {
        proof {
            assert(candidates@.take(k + 1).drop_last() =~= candidates@.take(k as int));
        }
        if candidates[k] != own {
            chosen.push(candidates[k]);
        }
        k += 1;
    }
    proof {
        assert(candidates@.take(k as int) =~= candidates@);
    }
    chosen
}

/// After the grid was rebuilt from the nodes' cells, the partners of a free
/// node are exactly the other nodes whose cell is equal or adjacent to its
/// own, each of them once.
pub proof fn lemma_partners_after_rebuild(
    circles: Seq<Circle>,
    grid: SpatialGrid,
    cells: Seq<(i32, i32)>,
    own: usize,
)
    requires
        cells.len() == circles.len(),
        cells.len() <= usize::MAX,
        own < circles.len(),
        !circles[own as int].dragging,
        grid.distinct(),
        forall|a: int, b: int| #[trigger] grid.bucket(a, b) == crate::grid::members(cells, a, b),
    ensures
        ({
            let chosen = partners(
                circles,
                grid,
                own,
                cells[own as int].0 as int,
                cells[own as int].1 as int,
            );
            &&& chosen.no_duplicates()
            &&& forall|j: usize|
                chosen.contains(j) <==> j < cells.len() && j != own && crate::grid::near(
                    cells[j as int].0 as int,
                    cells[own as int].0 as int,
                ) && crate::grid::near(cells[j as int].1 as int, cells[own as int].1 as int)
        }),
{
    let cx = cells[own as int].0 as int;
    let cy = cells[own as int].1 as int;
    let around = grid.neighbourhood(cx, cy);
    let chosen = partners(circles, grid, own, cx, cy);
    grid.lemma_query_no_duplicates(cx, cy);
    lemma_without(around, own);
    assert forall|j: usize|
        chosen.contains(j) <==> j < cells.len() && j != own && crate::grid::near(
            cells[j as int].0 as int,
            cx,
        ) && crate::grid::near(cells[j as int].1 as int, cy) by {
        grid.lemma_query_membership(cx, cy, j);
        if around.contains(j) {
            let (a, b) = choose|a: int, b: int|
                crate::grid::near(a, cx) && crate::grid::near(b, cy) && #[trigger] grid.bucket(
                    a,
                    b,
                ).contains(j);
            crate::grid::lemma_members(cells, a, b);
            let k = choose|k: int| 0 <= k < grid.bucket(a, b).len() && grid.bucket(a, b)[k] == j;
            assert(crate::grid::members(cells, a, b)[k] == j);
        }
        if j < cells.len() {
            let a = cells[j as int].0 as int;
            let b = cells[j as int].1 as int;
            crate::grid::lemma_members(cells, a, b);
            assert(grid.bucket(a, b).contains(j));
        }
    }
}

} // verus!
