use vstd::prelude::*;

verus! {

/// The eight mirror images of the offset `(x, y)` about the axes and the
/// diagonals, in the order in which they are drawn.
pub open spec fn eight(x: int, y: int) -> Seq<(i32, i32)> {
    seq![
        (x as i32, y as i32),
        (y as i32, x as i32),
        ((-y) as i32, x as i32),
        ((-x) as i32, y as i32),
        ((-x) as i32, (-y) as i32),
        ((-y) as i32, (-x) as i32),
        (y as i32, (-x) as i32),
        (x as i32, (-y) as i32),
    ]
}

/// The row after a step from `(x, y)` with error `err`: one up where the
/// error is not positive.
pub open spec fn next_y(y: int, err: int) -> int {
    if err <= 0 {
        y + 1
    } else {
        y
    }
}

/// The error after the upward part of a step.
pub open spec fn risen(y: int, err: int) -> int {
    if err <= 0 {
        err + 2 * y + 1
    } else {
        err
    }
}

/// The column after a step: one inward where the error, after the upward
/// part, is positive.
pub open spec fn next_x(x: int, y: int, err: int) -> int {
    if risen(y, err) > 0 {
        x - 1
    } else {
        x
    }
}

/// The error after a whole step.
pub open spec fn next_err(x: int, y: int, err: int) -> int {
    if risen(y, err) > 0 {
        risen(y, err) + 1 - 2 * x
    } else {
        risen(y, err)
    }
}

/// The offsets drawn from `(x, y)` with error `err` on: the eight images of
/// each offset of the walk, which climbs from the x axis and ends where it
/// crosses the diagonal.
pub open spec fn walk(x: int, y: int, err: int) -> Seq<(i32, i32)>
    decreases x - y + 2,
{
    if x < y {
        Seq::empty()
    } else {
        eight(x, y) + walk(next_x(x, y, err), next_y(y, err), next_err(x, y, err))
    }
}

/// The offsets from its centre of the pixels that outline a circle of the
/// given radius, in drawing order. The walk starts at `(radius - 1, 0)` with
/// error `1 - 2 * radius`; a radius below 1 has no outline.
pub open spec fn outline(radius: int) -> Seq<(i32, i32)> {
    walk(radius - 1, 0, 1 - 2 * radius)
}

/// Whether the offset lies on the ring of the circle of radius `r`: the square
/// of its distance from the centre differs from `r * r` by at most `2 * r`, so
/// that the distance itself is below `r + 1` and not below `r - 1` by as much
/// as one pixel.
pub open spec fn on_ring(offset: (i32, i32), r: int) -> bool {
    let d = offset.0 as int * offset.0 as int + offset.1 as int * offset.1 as int;
    r * r - 2 * r <= d <= r * r + 2 * r
}

/// The error of the walk is the exact distance, in squares, of the current
/// offset from the circle, and stays within `2 * r` of zero: so every offset
/// that the walk draws lies on the ring.
proof fn lemma_walk_on_ring(r: int, x: int, y: int, err: int)
    requires
        1 <= r <= i32::MAX,
        0 <= y,
        x <= r - 1,
        err == x * x + y * y - r * r,
        -2 * r <= err,
        x >= 0 ==> err <= 2 * r,
    ensures
        forall|k: int| 0 <= k < walk(x, y, err).len() ==> on_ring(#[trigger] walk(x, y, err)[k], r),
    decreases x - y + 2,
{
    if x >= y {
        let x1 = next_x(x, y, err);
        let y1 = next_y(y, err);
        let e1 = next_err(x, y, err);
        assert(e1 == x1 * x1 + y1 * y1 - r * r) by (nonlinear_arith)
            requires
                err == x * x + y * y - r * r,
                x1 == next_x(x, y, err),
                y1 == next_y(y, err),
                e1 == next_err(x, y, err),
        ;
        assert((-x) * (-x) == x * x && (-y) * (-y) == y * y) by (nonlinear_arith);
        lemma_walk_on_ring(r, x1, y1, e1);
        let first = eight(x, y);
        let tail = walk(x1, y1, e1);
        assert forall|k: int| 0 <= k < walk(x, y, err).len() implies on_ring(
            #[trigger] walk(x, y, err)[k],
            r,
        ) by {
            if k < 8 {
                assert(walk(x, y, err)[k] == first[k]);
            } else {
                assert(walk(x, y, err)[k] == tail[k - 8]);
            }
        }
    }
}

/// Every pixel of the outline of a circle lies on the ring of that circle.
pub proof fn lemma_outline_on_ring(radius: int)
    requires
        1 <= radius <= i32::MAX,
    ensures
        forall|k: int|
            0 <= k < outline(radius).len() ==> on_ring(#[trigger] outline(radius)[k], radius),
{
    assert(1 - 2 * radius == (radius - 1) * (radius - 1) + 0 * 0 - radius * radius)
        by (nonlinear_arith);
    lemma_walk_on_ring(radius, radius - 1, 0, 1 - 2 * radius);
}

/// Computes the outline of a circle as offsets from its centre.
pub fn circle_outline(radius: i32) -> (offsets: Vec<(i32, i32)>)
    ensures
        offsets@ == outline(radius as int),
{
    let r: i64 = radius as i64;
    let mut offsets: Vec<(i32, i32)> = Vec::new();
    if radius < 1 {
        assert(offsets@ =~= outline(radius as int));
        return offsets;
    }
    let mut x: i64 = r - 1;
    let mut y: i64 = 0;
    let mut err: i64 = 1 - 2 * r;
    while x >= y
        invariant
            r == radius,
            1 <= r,
            0 <= y,
            x <= r - 1,
            -2 * r <= err <= 2 * r + 1,
            x >= 0 ==> err <= 2 * r,
            offsets@ + walk(x as int, y as int, err as int) == outline(radius as int),
        decreases x - y + 2,
    {
        let ghost before = offsets@;
        let ghost rest = walk(x as int, y as int, err as int);
        let px: i32 = x as i32;
        let py: i32 = y as i32;
        offsets.push((px, py));
        offsets.push((py, px));
        offsets.push((-py, px));
        offsets.push((-px, py));
        offsets.push((-px, -py));
        offsets.push((-py, -px));
        offsets.push((py, -px));
        offsets.push((px, -py));
        assert(offsets@ =~= before + eight(x as int, y as int));
        let ghost tail = walk(
            next_x(x as int, y as int, err as int),
            next_y(y as int, err as int),
            next_err(x as int, y as int, err as int),
        );
        assert(rest == eight(x as int, y as int) + tail);
        assert(offsets@ + tail =~= before + rest);
        if err <= 0 {
            err += 2 * y + 1;
            y += 1;
        }
        if err > 0 {
            err += 1 - 2 * x;
            x -= 1;
        }
    }
    assert(walk(x as int, y as int, err as int) =~= Seq::<(i32, i32)>::empty());
    assert(offsets@ =~= outline(radius as int));
    offsets
}

} // verus!
