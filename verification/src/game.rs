use crate::graph::{
    circle_ids, find_circle, first_index, lemma_first_index, lemma_unique_id_position,
    missing_end, resolve_edges, resolved, resolves, Circle, Edge, ReferenceError,
};
use crate::grid::{members, SpatialGrid};
use crate::ramp::{step, ForceScale};
use vstd::prelude::*;

verus! {

/// A button of the pointing device.
#[derive(Clone, Copy, Debug, PartialEq, Eq, Structural)]
pub enum MouseButton {
    Unknown,
    Left,
    Middle,
    Right,
    X1,
    X2,
}

/// What a movement of the pointer asks of the caller.
#[derive(Clone, Copy, Debug, PartialEq, Eq, Structural)]
pub enum Motion {
    /// Nothing is held: nothing moves.
    Idle,
    /// The node at this position is held: it goes where the pointer is.
    Drag { index: usize },
    /// The background is held: the camera pans by this many pixels.
    Pan { dx: i64, dy: i64 },
}

/// The direction of a turn of the wheel.
#[derive(Clone, Copy, Debug, PartialEq, Eq, Structural)]
pub enum Zoom {
    In,
    Out,
}

/// The least position below `count` at which `hits` holds `true`, or -1 if
/// there is none. Positions past the end of `hits` count as `false`.
pub open spec fn first_hit(hits: Seq<bool>, count: nat) -> int
    decreases count,
{
    if count == 0 {
        -1
    } else if first_hit(hits, (count - 1) as nat) >= 0 {
        first_hit(hits, (count - 1) as nat)
    } else if count - 1 < hits.len() && hits[count - 1] {
        count - 1
    } else {
        -1
    }
}

/// `first_hit` is the least position that holds `true`, and below `count`.
pub proof fn lemma_first_hit(hits: Seq<bool>, count: nat)
    ensures
        -1 <= first_hit(hits, count) < count,
        first_hit(hits, count) >= 0 ==> first_hit(hits, count) < hits.len() && hits[first_hit(
            hits,
            count,
        )],
        forall|k: int|
            0 <= k < count && k < hits.len() && hits[k] ==> 0 <= first_hit(hits, count) <= k,
    decreases count,
{
    if count > 0 {
        lemma_first_hit(hits, (count - 1) as nat);
    }
}

/// A hit that was found among the first `count` positions stays the first
/// among more.
proof fn lemma_first_hit_stays(hits: Seq<bool>, count: nat, more: nat)
    requires
        count <= more,
        first_hit(hits, count) >= 0,
    ensures
        first_hit(hits, more) == first_hit(hits, count),
    decreases more,
{
    if count < more {
        lemma_first_hit_stays(hits, count, (more - 1) as nat);
    }
}

/// The first of the `count` nodes that the pointer is on, given for each node
/// whether it is.
pub fn pick(hits: &Vec<bool>, count: usize) -> (picked: Option<usize>)
    ensures
        match picked {
            Some(k) => k == first_hit(hits@, count as nat),
            None => first_hit(hits@, count as nat) == -1,
        },
{
    let mut i: usize = 0;
    while i < count
        invariant
            0 <= i <= count,
            first_hit(hits@, i as nat) == -1,
        decreases count - i,
    {
        if i < hits.len() && hits[i] {
            proof {
                assert(first_hit(hits@, (i + 1) as nat) == i);
                lemma_first_hit_stays(hits@, (i + 1) as nat, count as nat);
            }
            return Some(i);
        }
        i += 1;
    }
    None
}

/// The nodes after the one at position `k` was taken hold of.
pub open spec fn held(circles: Seq<Circle>, k: int) -> Seq<Circle> {
    circles.update(k, Circle { id: circles[k].id, dragging: true })
}

/// The nodes after the held id was let go: the first node that carries it is
/// free again; if none carries it, nothing changes.
pub open spec fn released(circles: Seq<Circle>, id: usize) -> Seq<Circle> {
    let k = first_index(circle_ids(circles), id);
    if k >= 0 {
        circles.update(k, Circle { id, dragging: false })
    } else {
        circles
    }
}

/// Where no two nodes share an id, taking hold of a free node and letting its
/// id go again leaves every node as it was.
pub proof fn lemma_hold_then_release(circles: Seq<Circle>, k: int)
    requires
        circle_ids(circles).no_duplicates(),
        0 <= k < circles.len(),
        !circles[k].dragging,
    ensures
        first_index(circle_ids(held(circles, k)), circles[k].id) == k,
        released(held(circles, k), circles[k].id) == circles,
{
    assert(circle_ids(held(circles, k)) =~= circle_ids(circles));
    lemma_unique_id_position(circles, k);
    assert(released(held(circles, k), circles[k].id) =~= circles);
}

/// The nodes as they are at the start of a run: one for each id, none held.
pub open spec fn fresh(ids: Seq<usize>) -> Seq<Circle> {
    Seq::new(ids.len(), |i: int| Circle { id: ids[i], dragging: false })
}

/// The discrete state of a running simulation: which nodes and springs there
/// are, what the pointer holds, the grid and the force scale.
pub struct Game {
    pub edges: Vec<Edge>,
    pub springs: Vec<(usize, usize)>,
    pub circles: Vec<Circle>,
    pub dragging_circle: Option<usize>,
    pub dragging_pan: bool,
    pub last_mouse_x: i32,
    pub last_mouse_y: i32,
    pub grid: SpatialGrid,
    pub force_scale: ForceScale,
}

impl Game {
    /// Every edge names two nodes, and `springs` holds for each edge the
    /// positions of its two nodes.
    pub open spec fn wf(&self) -> bool {
        &&& self.springs@.len() == self.edges@.len()
        &&& forall|k: int|
            0 <= k < self.edges@.len() ==> resolves(self.circles@, #[trigger] self.edges@[k])
        &&& forall|k: int|
            0 <= k < self.edges@.len() ==> #[trigger] self.springs@[k] == resolved(
                self.circles@,
                self.edges@[k],
            )
    }

    /// Whether the two states differ at most in the nodes and in what the
    /// pointer holds.
    pub open spec fn same_simulation(&self, other: &Game) -> bool {
        &&& self.edges == other.edges
        &&& self.springs == other.springs
        &&& self.grid == other.grid
        &&& self.force_scale == other.force_scale
    }

    /// Whether the two states agree in what the pointer holds.
    pub open spec fn same_pointer(&self, other: &Game) -> bool {
        &&& self.dragging_circle == other.dragging_circle
        &&& self.dragging_pan == other.dragging_pan
        &&& self.last_mouse_x == other.last_mouse_x
        &&& self.last_mouse_y == other.last_mouse_y
    }

    /// In a well-formed state every spring joins two positions of `circles`.
    pub proof fn lemma_springs_in_range(&self, k: int)
        requires
            self.wf(),
            0 <= k < self.springs@.len(),
        ensures
            self.springs@[k].0 < self.circles@.len(),
            self.springs@[k].1 < self.circles@.len(),
    {
        let edge = self.edges@[k];
        lemma_first_index(circle_ids(self.circles@), edge.source);
        lemma_first_index(circle_ids(self.circles@), edge.target);
    }

    /// Starts a run on the nodes with the given ids and the given edges. An
    /// edge with an end that names no node is refused, the first such edge
    /// being reported; otherwise no node is held, the pointer holds nothing,
    /// the grid is empty and the force scale is one hundredth.
    pub fn new(ids: &Vec<usize>, edges: Vec<Edge>) -> (outcome: Result<Game, ReferenceError>)
        ensures
            match outcome {
                Ok(game) => {
                    &&& game.wf()
                    &&& game.circles@ == fresh(ids@)
                    &&& game.edges == edges
                    &&& game.dragging_circle.is_none()
                    &&& !game.dragging_pan
                    &&& game.last_mouse_x == 0
                    &&& game.last_mouse_y == 0
                    &&& game.force_scale@ == 1
                    &&& forall|a: int, b: int| #[trigger]
                        game.grid.bucket(a, b) == Seq::<usize>::empty()
                },
                Err(e) => {
                    &&& e.edge < edges@.len()
                    &&& !resolves(fresh(ids@), edges@[e.edge as int])
                    &&& e.node == missing_end(fresh(ids@), edges@[e.edge as int])
                    &&& forall|k: int|
                        0 <= k < e.edge ==> resolves(fresh(ids@), #[trigger] edges@[k])
                },
            },
    {
        let mut circles: Vec<Circle> = Vec::new();
        let mut i: usize = 0;
        while i < ids.len()
            invariant
                0 <= i <= ids.len(),
                circles@ == fresh(ids@.take(i as int)),
            decreases ids.len() - i,
        {
            circles.push(Circle::new(ids[i]));
            i += 1;
            assert(circles@ =~= fresh(ids@.take(i as int)));
        }
        assert(ids@.take(i as int) =~= ids@);
        match resolve_edges(&circles, &edges) {
            Ok(springs) => Ok(
                Game {
                    edges,
                    springs,
                    circles,
                    dragging_circle: None,
                    dragging_pan: false,
                    last_mouse_x: 0,
                    last_mouse_y: 0,
                    grid: SpatialGrid::new(),
                    force_scale: ForceScale::new(),
                },
            ),
            Err(e) => Err(e),
        }
    }

    /// A button goes down at pixel `(x, y)`; `hits` says for each node whether
    /// the pointer is on it. Only the left button does anything: the place is
    /// remembered, and the first node under the pointer becomes the held one;
    /// with no node under it the background is held.
    pub fn handle_mouse_button_down(
        &mut self,
        x: i32,
        y: i32,
        mouse_btn: MouseButton,
        hits: &Vec<bool>,
    )
        ensures
            final(self).same_simulation(old(self)),
            old(self).wf() ==> final(self).wf(),
            mouse_btn != MouseButton::Left ==> final(self).circles == old(self).circles && final(self).same_pointer(old(self)),
            mouse_btn == MouseButton::Left ==> final(self).last_mouse_x == x && final(self).last_mouse_y == y,
            mouse_btn == MouseButton::Left && first_hit(hits@, old(self).circles@.len()) >= 0 ==> {
                let k = first_hit(hits@, old(self).circles@.len());
                &&& final(self).circles@ == held(old(self).circles@, k)
                &&& final(self).dragging_circle == Some(old(self).circles@[k].id)
                &&& final(self).dragging_pan == old(self).dragging_pan
            },
            mouse_btn == MouseButton::Left && first_hit(hits@, old(self).circles@.len()) < 0 ==> {
                &&& final(self).circles == old(self).circles
                &&& final(self).dragging_circle == old(self).dragging_circle
                &&& final(self).dragging_pan
            },
    {
        match mouse_btn {
            MouseButton::Left => {},
            _ => {
                return ;
            },
        }
        self.last_mouse_x = x;
        self.last_mouse_y = y;
        proof {
            lemma_first_hit(hits@, self.circles@.len());
        }
        match pick(hits, self.circles.len()) {
            Some(k) => {
                let id = self.circles[k].id;
                self.circles.set(k, Circle { id, dragging: true });
                self.dragging_circle = Some(id);
                assert(circle_ids(self.circles@) =~= circle_ids(old(self).circles@));
            },
            None => {
                self.dragging_pan = true;
            },
        }
    }

    /// A button goes up. Only the left button does anything: the first node
    /// that carries the held id is let go and nothing is held any more (if no
    /// node carries it, the id stays held), and the background is let go.
    pub fn handle_mouse_button_up(&mut self, mouse_btn: MouseButton)
        ensures
            final(self).same_simulation(old(self)),
            old(self).wf() ==> final(self).wf(),
            final(self).last_mouse_x == old(self).last_mouse_x,
            final(self).last_mouse_y == old(self).last_mouse_y,
            mouse_btn != MouseButton::Left ==> final(self).circles == old(self).circles && final(self).same_pointer(old(self)),
            mouse_btn == MouseButton::Left ==> !final(self).dragging_pan,
            mouse_btn == MouseButton::Left ==> match old(self).dragging_circle {
                Some(id) => {
                    let k = first_index(circle_ids(old(self).circles@), id);
                    if k >= 0 {
                        &&& final(self).circles@ == old(self).circles@.update(
                            k,
                            Circle { id, dragging: false },
                        )
                        &&& final(self).dragging_circle.is_none()
                    } else {
                        &&& final(self).circles == old(self).circles
                        &&& final(self).dragging_circle == Some(id)
                    }
                },
                None => final(self).circles == old(self).circles && final(self).dragging_circle.is_none(),
            },
    {
        match mouse_btn {
            MouseButton::Left => {},
            _ => {
                return ;
            },
        }
        if let Some(id) = self.dragging_circle {
            proof {
                lemma_first_index(circle_ids(self.circles@), id);
            }
            if let Some(k) = find_circle(&self.circles, id) {
                self.circles.set(k, Circle { id, dragging: false });
                self.dragging_circle = None;
                assert(circle_ids(self.circles@) =~= circle_ids(old(self).circles@));
            }
        }
        self.dragging_pan = false;
    }

    /// The pointer moves to pixel `(x, y)`. While a node is held, the first
    /// node that carries the held id is to follow the pointer. Otherwise,
    /// while the background is held, the camera is to pan by the distance
    /// from the place remembered last, and the new place is remembered.
    pub fn handle_mouse_motion(&mut self, x: i32, y: i32) -> (motion: Motion)
        ensures
            final(self).same_simulation(old(self)),
            final(self).circles == old(self).circles,
            final(self).dragging_circle == old(self).dragging_circle,
            final(self).dragging_pan == old(self).dragging_pan,
            match old(self).dragging_circle {
                Some(id) => {
                    let k = first_index(circle_ids(old(self).circles@), id);
                    &&& final(self).same_pointer(old(self))
                    &&& motion == if k >= 0 {
                        Motion::Drag { index: k as usize }
                    } else {
                        Motion::Idle
                    }
                },
                None => if old(self).dragging_pan {
                    &&& final(self).last_mouse_x == x
                    &&& final(self).last_mouse_y == y
                    &&& motion == Motion::Pan {
                        dx: (x - old(self).last_mouse_x) as i64,
                        dy: (y - old(self).last_mouse_y) as i64,
                    }
                } else {
                    &&& final(self).same_pointer(old(self))
                    &&& motion == Motion::Idle
                },
            },
    {
        match self.dragging_circle {
            Some(id) => match find_circle(&self.circles, id) {
                Some(k) => Motion::Drag { index: k },
                None => Motion::Idle,
            },
            None => {
                if self.dragging_pan {
                    let dx: i64 = x as i64 - self.last_mouse_x as i64;
                    let dy: i64 = y as i64 - self.last_mouse_y as i64;
                    self.last_mouse_x = x;
                    self.last_mouse_y = y;
                    Motion::Pan { dx, dy }
                } else {
                    Motion::Idle
                }
            },
        }
    }

    /// The wheel turns by `y` notches: a turn forward zooms in, any other
    /// zooms out.
    pub fn handle_mouse_wheel(&self, y: i32) -> (zoom: Zoom)
        ensures
            zoom == if y > 0 {
                Zoom::In
            } else {
                Zoom::Out
            },
    {
        if y > 0 {
            Zoom::In
        } else {
            Zoom::Out
        }
    }

    /// One tick, as far as it is discrete. The grid is emptied and filled
    /// again from the cell of each node, so that no force of this tick reads a
    /// stale entry; the force scale of this tick is handed out, in hundredths,
    /// and the scale takes one step of its ramp for the next tick.
    pub fn update(&mut self, cells: &Vec<(i32, i32)>) -> (scale: u32)
        ensures
            scale == old(self).force_scale@,
            scale <= 100,
            final(self).force_scale@ == step(old(self).force_scale@),
            forall|a: int, b: int| #[trigger]
                final(self).grid.bucket(a, b) == members(cells@, a, b),
            final(self).grid.distinct(),
            final(self).edges == old(self).edges,
            final(self).springs == old(self).springs,
            final(self).circles == old(self).circles,
            final(self).same_pointer(old(self)),
    {
        self.grid.rebuild(cells);
        let scale = self.force_scale.hundredths();
        self.force_scale.advance();
        scale
    }
}

} // verus!
