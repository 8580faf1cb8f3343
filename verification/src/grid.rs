use std::collections::HashMap;
use vstd::prelude::*;

verus! {

broadcast use vstd::std_specs::hash::group_hash_axioms;

/// Whether `c` is a coordinate that a cell can have.
spec fn is_coord(c: int) -> bool {
    -0x8000_0000 <= c < 0x8000_0000
}

/// The number under which the cell `(cx, cy)` is stored. Distinct cells get
/// distinct numbers.
spec fn cell_key(cx: int, cy: int) -> int {
    (cx + 0x8000_0000) * 0x1_0000_0000 + (cy + 0x8000_0000)
}

/// Whether two coordinates are equal or adjacent.
pub open spec fn near(a: int, b: int) -> bool {
    -1 <= a - b <= 1
}

/// The positions in `cells` that hold the cell `(cx, cy)`, in rising order.
pub open spec fn members(cells: Seq<(i32, i32)>, cx: int, cy: int) -> Seq<usize>
    decreases cells.len(),
{
    if cells.len() == 0 {
        Seq::empty()
    } else if cells.last().0 == cx && cells.last().1 == cy {
        members(cells.drop_last(), cx, cy).push((cells.len() - 1) as usize)
    } else {
        members(cells.drop_last(), cx, cy)
    }
}

/// `members` lists positions of `cells` that hold the cell, each once and in
/// rising order.
pub proof fn lemma_members(cells: Seq<(i32, i32)>, cx: int, cy: int)
    requires
        cells.len() <= usize::MAX,
    ensures
        forall|k: int|
            0 <= k < members(cells, cx, cy).len() ==> {
                let m = #[trigger] members(cells, cx, cy)[k];
                &&& m < cells.len()
                &&& cells[m as int].0 == cx
                &&& cells[m as int].1 == cy
            },
        forall|j: int, k: int|
            0 <= j < k < members(cells, cx, cy).len() ==> #[trigger] members(cells, cx, cy)[j]
                < #[trigger] members(cells, cx, cy)[k],
        forall|i: int|
            0 <= i < cells.len() && cells[i].0 == cx && cells[i].1 == cy ==> members(
                cells,
                cx,
                cy,
            ).contains(i as usize),
    decreases cells.len(),
{
    if cells.len() > 0 {
        let front = cells.drop_last();
        lemma_members(front, cx, cy);
        let all = members(cells, cx, cy);
        let before = members(front, cx, cy);
        assert forall|i: int|
            0 <= i < cells.len() && cells[i].0 == cx && cells[i].1 == cy implies all.contains(
            i as usize,
        ) by {
            if i < front.len() {
                assert(front[i] == cells[i]);
                let k = choose|k: int| 0 <= k < before.len() && before[k] == i as usize;
                assert(all[k] == i as usize);
            } else {
                assert(all[all.len() - 1] == i as usize);
            }
        }
    }
}

/// An element is in a concatenation exactly when it is in one of the parts.
proof fn lemma_concat_contains(s: Seq<usize>, t: Seq<usize>, x: usize)
    ensures
        (s + t).contains(x) <==> s.contains(x) || t.contains(x),
{
    if s.contains(x) {
        let i = choose|i: int| 0 <= i < s.len() && s[i] == x;
        assert((s + t)[i] == x);
    }
    if t.contains(x) {
        let i = choose|i: int| 0 <= i < t.len() && t[i] == x;
        assert((s + t)[s.len() + i] == x);
    }
    if (s + t).contains(x) {
        let i = choose|i: int| 0 <= i < (s + t).len() && (s + t)[i] == x;
        if i < s.len() {
            assert(s[i] == x);
        } else {
            assert(t[i - s.len()] == x);
        }
    }
}

/// A uniform grid: for each cell, the node indices that were inserted at it.
pub struct SpatialGrid {
    cells: HashMap<u64, Vec<usize>>,
}

fn key_of(cx: i32, cy: i32) -> (k: u64)
    ensures
        k == cell_key(cx as int, cy as int),
{
    let hi: u64 = (cx as i64 + 0x8000_0000i64) as u64;
    let lo: u64 = (cy as i64 + 0x8000_0000i64) as u64;
    hi * 0x1_0000_0000u64 + lo
}

impl SpatialGrid {
    /// The node indices held at cell `(cx, cy)`, in the order of insertion.
    /// Empty for a cell that holds none, and for coordinates that no cell has.
    pub closed spec fn bucket(&self, cx: int, cy: int) -> Seq<usize> {
        if is_coord(cx) && is_coord(cy) && self.cells@.contains_key(cell_key(cx, cy) as u64) {
            self.cells@[cell_key(cx, cy) as u64]@
        } else {
            Seq::empty()
        }
    }

    /// The three buckets of column `cx` around row `cy`, lowest row first.
    pub open spec fn column(&self, cx: int, cy: int) -> Seq<usize> {
        self.bucket(cx, cy - 1) + self.bucket(cx, cy) + self.bucket(cx, cy + 1)
    }

    /// The nine buckets of the 3x3 block centred on `(cx, cy)`, column by
    /// column.
    pub open spec fn neighbourhood(&self, cx: int, cy: int) -> Seq<usize> {
        self.column(cx - 1, cy) + self.column(cx, cy) + self.column(cx + 1, cy)
    }

    /// Whether some bucket holds `id`.
    pub open spec fn holds(&self, id: usize) -> bool {
        exists|a: int, b: int| #[trigger] self.bucket(a, b).contains(id)
    }

    /// No node index is held twice, neither in one bucket nor in two.
    pub open spec fn distinct(&self) -> bool {
        forall|a: int, b: int, i: int, c: int, d: int, j: int|
            0 <= i < self.bucket(a, b).len() && 0 <= j < self.bucket(c, d).len()
                && #[trigger] self.bucket(a, b)[i] == #[trigger] self.bucket(c, d)[j] ==> a == c
                && b == d && i == j
    }

    /// A column holds `id` exactly when one of its three buckets does.
    proof fn lemma_column_contains(&self, cx: int, cy: int, id: usize)
        ensures
            self.column(cx, cy).contains(id) <==> self.bucket(cx, cy - 1).contains(id)
                || self.bucket(cx, cy).contains(id) || self.bucket(cx, cy + 1).contains(id),
    {
        lemma_concat_contains(self.bucket(cx, cy - 1), self.bucket(cx, cy), id);
        lemma_concat_contains(
            self.bucket(cx, cy - 1) + self.bucket(cx, cy),
            self.bucket(cx, cy + 1),
            id,
        );
    }

    /// A query returns exactly the node indices whose cell is equal or
    /// adjacent, diagonals included, to the cell asked for.
    pub proof fn lemma_query_membership(&self, cx: int, cy: int, id: usize)
        ensures
            self.neighbourhood(cx, cy).contains(id) <==> exists|a: int, b: int|
                near(a, cx) && near(b, cy) && #[trigger] self.bucket(a, b).contains(id),
    {
        self.lemma_column_contains(cx - 1, cy, id);
        self.lemma_column_contains(cx, cy, id);
        self.lemma_column_contains(cx + 1, cy, id);
        lemma_concat_contains(self.column(cx - 1, cy), self.column(cx, cy), id);
        lemma_concat_contains(
            self.column(cx - 1, cy) + self.column(cx, cy),
            self.column(cx + 1, cy),
            id,
        );
    }

    /// Where no node index is held twice, none comes twice out of a query.
    pub proof fn lemma_query_no_duplicates(&self, cx: int, cy: int)
        requires
            self.distinct(),
        ensures
            self.neighbourhood(cx, cy).no_duplicates(),
    {
        let n = self.neighbourhood(cx, cy);
        assert forall|p: int, q: int| 0 <= p < n.len() && 0 <= q < n.len() && p != q implies n[p]
            != n[q] by {
            self.lemma_locate(cx, cy, p);
            self.lemma_locate(cx, cy, q);
        }
    }

    /// The width of a column: how many indices its three buckets hold.
    spec fn width(&self, cx: int, cy: int) -> int {
        self.column(cx, cy).len() as int
    }

    /// The cell and the place in its bucket from which position `p` of a
    /// query's result comes.
    spec fn locate(&self, cx: int, cy: int, p: int) -> (int, int, int) {
        let w0 = self.width(cx - 1, cy);
        let w1 = self.width(cx, cy);
        let (a, r) = if p < w0 {
            (cx - 1, p)
        } else if p < w0 + w1 {
            (cx, p - w0)
        } else {
            (cx + 1, p - w0 - w1)
        };
        let l0 = self.bucket(a, cy - 1).len() as int;
        let l1 = self.bucket(a, cy).len() as int;
        if r < l0 {
            (a, cy - 1, r)
        } else if r < l0 + l1 {
            (a, cy, r - l0)
        } else {
            (a, cy + 1, r - l0 - l1)
        }
    }

    /// `locate` names the place that a position of the result comes from, and
    /// no two positions come from one place.
    proof fn lemma_locate(&self, cx: int, cy: int, p: int)
        requires
            0 <= p < self.neighbourhood(cx, cy).len(),
        ensures
            ({
                let (a, b, i) = self.locate(cx, cy, p);
                &&& 0 <= i < self.bucket(a, b).len()
                &&& self.neighbourhood(cx, cy)[p] == self.bucket(a, b)[i]
                &&& forall|q: int|
                    0 <= q < self.neighbourhood(cx, cy).len() && self.locate(cx, cy, q) == (a, b, i)
                        ==> q == p
            }),
    {
    }

    /// A grid with no entries.
    pub fn new() -> (grid: SpatialGrid)
        ensures
            forall|cx: int, cy: int| #[trigger] grid.bucket(cx, cy) == Seq::<usize>::empty(),
    {
        SpatialGrid { cells: HashMap::new() }
    }

    /// Removes every entry.
    pub fn clear(&mut self)
        ensures
            forall|cx: int, cy: int| #[trigger] final(self).bucket(cx, cy) == Seq::<usize>::empty(),
    {
        self.cells.clear();
    }

    /// Appends `id` to the bucket of cell `(cx, cy)`; every other bucket is
    /// left as it was. An index that the grid did not hold yet is held once.
    pub fn insert(&mut self, id: usize, cx: i32, cy: i32)
        ensures
            final(self).bucket(cx as int, cy as int) == old(self).bucket(cx as int, cy as int).push(
                id,
            ),
            forall|a: int, b: int|
                !(a == cx && b == cy) ==> #[trigger] final(self).bucket(a, b) == old(self).bucket(
                    a,
                    b,
                ),
            old(self).distinct() && !old(self).holds(id) ==> final(self).distinct(),
    {
        let key = key_of(cx, cy);
        let mut members: Vec<usize> = match self.cells.remove(&key) {
            Some(v) => v,
            None => Vec::new(),
        };
        members.push(id);
        self.cells.insert(key, members);
        proof {
            assert forall|a: int, b: int| !(a == cx && b == cy) implies #[trigger] self.bucket(
                a,
                b,
            ) == old(self).bucket(a, b) by {
                if is_coord(a) && is_coord(b) {
                    assert(cell_key(a, b) != cell_key(cx as int, cy as int));
                }
            }
            if old(self).distinct() && !old(self).holds(id) {
                assert forall|a: int, b: int, i: int, c: int, d: int, j: int|
                    0 <= i < self.bucket(a, b).len() && 0 <= j < self.bucket(c, d).len()
                        && #[trigger] self.bucket(a, b)[i] == #[trigger] self.bucket(
                        c,
                        d,
                    )[j] implies a == c && b == d && i == j by {
                    if i < old(self).bucket(a, b).len() {
                        assert(old(self).bucket(a, b)[i] == self.bucket(a, b)[i]);
                        assert(old(self).bucket(a, b).contains(self.bucket(a, b)[i]));
                    }
                    if j < old(self).bucket(c, d).len() {
                        assert(old(self).bucket(c, d)[j] == self.bucket(c, d)[j]);
                        assert(old(self).bucket(c, d).contains(self.bucket(c, d)[j]));
                    }
                }
            }
        }
    }

    /// Empties the grid and inserts every position of `cells` at its cell:
    /// afterwards each bucket lists, in rising order, the positions that hold
    /// its cell, and no position is held twice.
    pub fn rebuild(&mut self, cells: &Vec<(i32, i32)>)
        ensures
            forall|a: int, b: int| #[trigger] final(self).bucket(a, b) == members(cells@, a, b),
            final(self).distinct(),
    {
        self.clear();
        let mut i: usize = 0;
        while i < cells.len()
            invariant
                0 <= i <= cells.len(),
                forall|a: int, b: int| #[trigger]
                    self.bucket(a, b) == members(cells@.take(i as int), a, b),
            decreases cells.len() - i,
        {
            let cell = cells[i];
            self.insert(i, cell.0, cell.1);
            proof {
                assert(cells@.take(i + 1).drop_last() =~= cells@.take(i as int));
            }
            i += 1;
        }
        proof {
            assert(cells@.take(i as int) =~= cells@);
            assert forall|a: int, b: int, i: int, c: int, d: int, j: int|
                0 <= i < self.bucket(a, b).len() && 0 <= j < self.bucket(c, d).len()
                    && #[trigger] self.bucket(a, b)[i] == #[trigger] self.bucket(
                    c,
                    d,
                )[j] implies a == c && b == d && i == j by {
                lemma_members(cells@, a, b);
                lemma_members(cells@, c, d);
            }
        }
    }

    fn append_bucket(&self, out: &mut Vec<usize>, cx: i64, cy: i64)
        ensures
            final(out)@ == old(out)@ + self.bucket(cx as int, cy as int),
    {
        if cx < -0x8000_0000i64 || cx > 0x7fff_ffffi64 || cy < -0x8000_0000i64 || cy
            > 0x7fff_ffffi64 {
            assert(out@ =~= old(out)@ + self.bucket(cx as int, cy as int));
            return ;
        }
        let key = key_of(cx as i32, cy as i32);
        match self.cells.get(&key) {
            Some(members) => {
                let mut i: usize = 0;
                while i < members.len()
                    invariant
                        0 <= i <= members.len(),
                        out@ == old(out)@ + members@.take(i as int),
                    decreases members.len() - i,
                {
                    out.push(members[i]);
                    i += 1;
                    assert(members@.take(i as int) =~= members@.take(i - 1).push(members@[i - 1]));
                    assert(out@ =~= old(out)@ + members@.take(i as int));
                }
                assert(members@.take(i as int) =~= members@);
            },
            None => {
                assert(out@ =~= old(out)@ + self.bucket(cx as int, cy as int));
            },
        }
    }

    fn append_column(&self, out: &mut Vec<usize>, cx: i64, cy: i32)
        ensures
            final(out)@ == old(out)@ + self.column(cx as int, cy as int),
    {
        self.append_bucket(out, cx, cy as i64 - 1);
        self.append_bucket(out, cx, cy as i64);
        self.append_bucket(out, cx, cy as i64 + 1);
        assert(out@ =~= old(out)@ + self.column(cx as int, cy as int));
    }

    /// The node indices held in the 3x3 block of cells centred on `(cx, cy)`:
    /// exactly those whose cell is equal or adjacent to it, diagonals
    /// included, bucket after bucket, and none of them twice unless the grid
    /// holds it twice.
    pub fn query(&self, cx: i32, cy: i32) -> (neighbors: Vec<usize>)
        ensures
            neighbors@ == self.neighbourhood(cx as int, cy as int),
            forall|id: usize|
                neighbors@.contains(id) <==> exists|a: int, b: int|
                    near(a, cx as int) && near(b, cy as int) && #[trigger] self.bucket(
                        a,
                        b,
                    ).contains(id),
            self.distinct() ==> neighbors@.no_duplicates(),
    {
        let mut neighbors: Vec<usize> = Vec::new();
        self.append_column(&mut neighbors, cx as i64 - 1, cy);
        self.append_column(&mut neighbors, cx as i64, cy);
        self.append_column(&mut neighbors, cx as i64 + 1, cy);
        proof {
            assert(neighbors@ =~= self.neighbourhood(cx as int, cy as int));
            assert forall|id: usize|
                neighbors@.contains(id) <==> exists|a: int, b: int|
                    near(a, cx as int) && near(b, cy as int) && #[trigger] self.bucket(
                        a,
                        b,
                    ).contains(id) by {
                self.lemma_query_membership(cx as int, cy as int, id);
            }
            if self.distinct() {
                self.lemma_query_no_duplicates(cx as int, cy as int);
            }
        }
        neighbors
    }
}

} // verus!
