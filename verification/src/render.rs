//! Pixel-buffer drawing for the live view: a row-major frame of
//! `WIDTH * HEIGHT` pixels, each a `0x00RRGGBB` colour.

use vstd::prelude::*;

verus! {

/// Width of the frame in pixels.
pub const WIDTH: usize = 800;

/// Height of the frame in pixels.
pub const HEIGHT: usize = 800;

/// Whether the pixel `(x, y)` lies inside the frame.
pub open spec fn in_frame(x: int, y: int) -> bool {
    0 <= x < WIDTH && 0 <= y < HEIGHT
}

/// Position of the pixel `(x, y)` in the row-major buffer.
pub open spec fn pixel_index(x: int, y: int) -> int {
    y * WIDTH + x
}

/// The buffer `s` after every in-frame pixel whose coordinates satisfy
/// `shape` has been set to `color`; all other entries are kept.
pub open spec fn painted(s: Seq<u32>, color: u32, shape: spec_fn(int, int) -> bool) -> Seq<u32> {
    Seq::new(
        s.len(),
        |i: int|
            if i < WIDTH * HEIGHT && shape(i % (WIDTH as int), i / (WIDTH as int)) {
                color
            } else {
                s[i]
            },
    )
}

proof fn lemma_index_coords(x: int, y: int)
    requires
        in_frame(x, y),
    ensures
        0 <= pixel_index(x, y) < WIDTH * HEIGHT,
        pixel_index(x, y) % (WIDTH as int) == x,
        pixel_index(x, y) / (WIDTH as int) == y,
{
    assert(0 <= y * 800 + x < 800 * 800) by (nonlinear_arith)
        requires
            0 <= x < 800,
            0 <= y < 800,
    ;
    vstd::arithmetic::div_mod::lemma_fundamental_div_mod_converse(y * 800 + x, 800, y, x);
}

/// Sets the pixel `(x, y)` to `color` when it lies inside the frame.
pub fn set_px(buf: &mut Vec<u32>, x: isize, y: isize, color: u32)
    requires
        in_frame(x as int, y as int) ==> pixel_index(x as int, y as int) < old(buf)@.len(),
    ensures
        final(buf)@ == painted(old(buf)@, color, |px: int, py: int| px == x && py == y),
{
    if x >= 0 && x < WIDTH as isize && y >= 0 && y < HEIGHT as isize {
        proof {
            lemma_index_coords(x as int, y as int);
        }
        buf.set(y as usize * WIDTH + x as usize, color);
    }
    assert(buf@ =~= painted(old(buf)@, color, |px: int, py: int| px == x && py == y));
}

/// Every in-frame pixel of `shape` has its place in a buffer of `len` entries.
pub open spec fn shape_fits(len: int, shape: spec_fn(int, int) -> bool) -> bool {
    forall|x: int, y: int| #[trigger] in_frame(x, y) && shape(x, y) ==> pixel_index(x, y) < len
}

proof fn lemma_frame_coords(i: int)
    requires
        0 <= i < WIDTH * HEIGHT,
    ensures
        in_frame(i % (WIDTH as int), i / (WIDTH as int)),
{
    vstd::arithmetic::div_mod::lemma_div_pos_is_pos(i, 800);
    vstd::arithmetic::div_mod::lemma_div_is_ordered(i, 640000int, 800);
    vstd::arithmetic::div_mod::lemma_mod_pos_bound(i, 800);
}

/// Painting twice in one colour paints the union of the two shapes.
proof fn lemma_paint_union(s: Seq<u32>, color: u32, a: spec_fn(int, int) -> bool, b: spec_fn(int, int) -> bool)
    ensures
        painted(painted(s, color, a), color, b) =~= painted(s, color, |x: int, y: int| a(x, y) || b(x, y)),
{
}

/// Shapes that agree on every in-frame pixel paint the same buffer.
proof fn lemma_paint_same(s: Seq<u32>, color: u32, a: spec_fn(int, int) -> bool, b: spec_fn(int, int) -> bool)
    requires
        forall|x: int, y: int| #[trigger] in_frame(x, y) ==> (a(x, y) <==> b(x, y)),
    ensures
        painted(s, color, a) =~= painted(s, color, b),
{
    assert forall|i: int| 0 <= i < s.len() implies painted(s, color, a)[i] == painted(s, color, b)[i] by {
        if i < WIDTH * HEIGHT {
            lemma_frame_coords(i);
        }
    }
}

/// Fills row `y` of the frame with `color`; a row below the frame changes nothing.
pub fn draw_hline(buf: &mut Vec<u32>, y: usize, color: u32)
    requires
        shape_fits(old(buf)@.len() as int, |px: int, py: int| py == y),
    ensures
        final(buf)@ == painted(old(buf)@, color, |px: int, py: int| py == y),
{
    if y < HEIGHT {
        let mut x: usize = 0;
        while x < WIDTH
            invariant
                y < HEIGHT,
                x <= WIDTH,
                shape_fits(old(buf)@.len() as int, |px: int, py: int| py == y),
                buf@ == painted(old(buf)@, color, |px: int, py: int| py == y && px < x),
            decreases WIDTH - x,
        {
            proof {
                assert(in_frame(x as int, y as int));
            }
            set_px(buf, x as isize, y as isize, color);
            proof {
                lemma_paint_union(old(buf)@, color, |px: int, py: int| py == y && px < x,
                    |px: int, py: int| px == x && py == y);
                lemma_paint_same(old(buf)@, color,
                    |px: int, py: int| (py == y && px < x) || (px == x && py == y),
                    |px: int, py: int| py == y && px < x + 1);
            }
            x = x + 1;
        }
        proof {
            lemma_paint_same(old(buf)@, color, |px: int, py: int| py == y && px < WIDTH,
                |px: int, py: int| py == y);
        }
    } else {
        proof {
            lemma_paint_same(old(buf)@, color, |px: int, py: int| false, |px: int, py: int| py == y);
            assert(old(buf)@ =~= painted(old(buf)@, color, |px: int, py: int| false));
        }
    }
}

} // verus!

verus! {

/// Fills column `x` of the frame with `color`; a column right of the frame changes nothing.
pub fn draw_vline(buf: &mut Vec<u32>, x: usize, color: u32)
    requires
        shape_fits(old(buf)@.len() as int, |px: int, py: int| px == x),
    ensures
        final(buf)@ == painted(old(buf)@, color, |px: int, py: int| px == x),
{
    if x < WIDTH {
        let mut y: usize = 0;
        while y < HEIGHT
            invariant
                x < WIDTH,
                y <= HEIGHT,
                shape_fits(old(buf)@.len() as int, |px: int, py: int| px == x),
                buf@ == painted(old(buf)@, color, |px: int, py: int| px == x && py < y),
            decreases HEIGHT - y,
        {
            proof {
                assert(in_frame(x as int, y as int));
            }
            set_px(buf, x as isize, y as isize, color);
            proof {
                lemma_paint_union(old(buf)@, color, |px: int, py: int| px == x && py < y,
                    |px: int, py: int| px == x && py == y);
                lemma_paint_same(old(buf)@, color,
                    |px: int, py: int| (px == x && py < y) || (px == x && py == y),
                    |px: int, py: int| px == x && py < y + 1);
            }
            y = y + 1;
        }
        proof {
            lemma_paint_same(old(buf)@, color, |px: int, py: int| px == x && py < HEIGHT,
                |px: int, py: int| px == x);
        }
    } else {
        proof {
            lemma_paint_same(old(buf)@, color, |px: int, py: int| false, |px: int, py: int| px == x);
            assert(old(buf)@ =~= painted(old(buf)@, color, |px: int, py: int| false));
        }
    }
}

/// Largest radius accepted by the shape primitives: twice its square fits a 32-bit `isize`.
pub const MAX_RADIUS: isize = 32767;

/// Largest distance of a shape's centre from the frame origin accepted by the shape primitives.
pub const MAX_CENTER: isize = 0x4000_0000;

/// Whether `(px, py)` belongs to the filled disc of radius `r` around `(cx, cy)`:
/// both offsets lie in `-r..=r` and the squared distance is at most `r * r`.
pub open spec fn in_dot(cx: int, cy: int, r: int, px: int, py: int) -> bool {
    &&& -r <= px - cx <= r
    &&& -r <= py - cy <= r
    &&& (px - cx) * (px - cx) + (py - cy) * (py - cy) <= r * r
}

/// Whether a shape centred at `(cx, cy)` with radius `r` keeps its arithmetic in range.
pub open spec fn shape_in_range(cx: int, cy: int, r: int) -> bool {
    &&& -MAX_CENTER <= cx <= MAX_CENTER
    &&& -MAX_CENTER <= cy <= MAX_CENTER
    &&& -MAX_RADIUS <= r <= MAX_RADIUS
}

/// Paints the filled disc of radius `r` around `(cx, cy)`, clipped to the frame.
pub fn fill_dot(buf: &mut Vec<u32>, cx: isize, cy: isize, r: isize, color: u32)
    requires
        shape_fits(old(buf)@.len() as int, |px: int, py: int| in_dot(cx as int, cy as int, r as int, px, py)),
        shape_in_range(cx as int, cy as int, r as int),
    ensures
        final(buf)@ == painted(old(buf)@, color, |px: int, py: int| in_dot(cx as int, cy as int, r as int, px, py)),
{
    let ghost dot = |px: int, py: int| in_dot(cx as int, cy as int, r as int, px, py);
    let mut dy: isize = -r;
    while dy <= r
        invariant
            shape_fits(old(buf)@.len() as int, dot),
            shape_in_range(cx as int, cy as int, r as int),
            -r <= dy,
            dy <= r + 1 || r < 0,
            buf@ == painted(old(buf)@, color, |px: int, py: int| dot(px, py) && py - cy < dy),
            dot == (|px: int, py: int| in_dot(cx as int, cy as int, r as int, px, py)),
        decreases r + 1 - dy,
    {
        let mut dx: isize = -r;
        while dx <= r
            invariant
                shape_fits(old(buf)@.len() as int, dot),
                shape_in_range(cx as int, cy as int, r as int),
                -r <= dy <= r,
                -r <= dx <= r + 1,
                buf@ == painted(old(buf)@, color,
                    |px: int, py: int| dot(px, py) && (py - cy < dy || (py - cy == dy && px - cx < dx))),
                dot == (|px: int, py: int| in_dot(cx as int, cy as int, r as int, px, py)),
            decreases r + 1 - dx,
        {
            let ghost before = |px: int, py: int| dot(px, py) && (py - cy < dy || (py - cy == dy && px - cx < dx));
            let ghost after = |px: int, py: int| dot(px, py) && (py - cy < dy || (py - cy == dy && px - cx < dx + 1));
            assert(0 <= dx * dx <= MAX_RADIUS * MAX_RADIUS && 0 <= dy * dy <= MAX_RADIUS * MAX_RADIUS
                && 0 <= r * r <= MAX_RADIUS * MAX_RADIUS) by (nonlinear_arith)
                requires
                    -MAX_RADIUS <= dx <= MAX_RADIUS,
                    -MAX_RADIUS <= dy <= MAX_RADIUS,
                    -MAX_RADIUS <= r <= MAX_RADIUS,
            ;
            if dx * dx + dy * dy <= r * r {
                proof {
                    assert(in_frame(cx + dx, cy + dy) ==> dot(cx + dx, cy + dy));
                }
                set_px(buf, cx + dx, cy + dy, color);
                proof {
                    lemma_paint_union(old(buf)@, color, before,
                        |px: int, py: int| px == cx + dx && py == cy + dy);
                    lemma_paint_same(old(buf)@, color,
                        |px: int, py: int| before(px, py) || (px == cx + dx && py == cy + dy), after);
                }
            } else {
                proof {
                    lemma_paint_same(old(buf)@, color, before, after);
                }
            }
            dx = dx + 1;
        }
        proof {
            lemma_paint_same(old(buf)@, color,
                |px: int, py: int| dot(px, py) && (py - cy < dy || (py - cy == dy && px - cx < dx)),
                |px: int, py: int| dot(px, py) && py - cy < dy + 1);
        }
        dy = dy + 1;
    }
    proof {
        lemma_paint_same(old(buf)@, color, |px: int, py: int| dot(px, py) && py - cy < dy, dot);
    }
}

} // verus!

verus! {

/// Largest radius accepted by `draw_circle`: the midpoint walk keeps its
/// decision variable within about four radii, which a 32-bit `isize` holds.
pub const MAX_CIRCLE_RADIUS: isize = 0x1000_0000;

/// Whether a circle centred at `(cx, cy)` with radius `r` keeps the midpoint walk's arithmetic in range.
pub open spec fn circle_in_range(cx: int, cy: int, r: int) -> bool {
    &&& -MAX_CENTER <= cx <= MAX_CENTER
    &&& -MAX_CENTER <= cy <= MAX_CENTER
    &&& -MAX_CIRCLE_RADIUS <= r <= MAX_CIRCLE_RADIUS
}

/// Absolute value of an integer.
pub open spec fn iabs(a: int) -> int {
    if a < 0 { -a } else { a }
}

/// The pixels of the first octant (`0 <= x <= y`) of the circle of radius `r`:
/// for each column `x`, `y` is the integer nearest to `sqrt(r*r - x*x)`, that is
/// `y*(y-1) < r*r - x*x <= y*(y+1)`. A circle of radius 0 is its centre alone,
/// and one of negative radius is empty.
pub open spec fn circle_octant(r: int, x: int, y: int) -> bool {
    if r == 0 {
        x == 0 && y == 0
    } else {
        &&& r >= 1
        &&& 0 <= x <= y
        &&& y * (y - 1) < r * r - x * x <= y * (y + 1)
    }
}

/// Whether the offset `(dx, dy)` from the centre is a pixel of the circle of radius `r`:
/// one of the eight reflections of a first-octant pixel.
pub open spec fn on_circle(r: int, dx: int, dy: int) -> bool {
    circle_octant(r, iabs(dx), iabs(dy)) || circle_octant(r, iabs(dy), iabs(dx))
}

/// The pixels of the circle that come from first-octant columns below `upto`.
spec fn circle_upto(r: int, upto: int, dx: int, dy: int) -> bool {
    (circle_octant(r, iabs(dx), iabs(dy)) && iabs(dx) < upto)
        || (circle_octant(r, iabs(dy), iabs(dx)) && iabs(dy) < upto)
}

/// In each column the first octant has at most one pixel.
proof fn lemma_octant_unique(r: int, x: int, y: int, z: int)
    requires
        circle_octant(r, x, y),
        circle_octant(r, x, z),
    ensures
        y == z,
{
    if r != 0 {
        let v = r * r - x * x;
        if z > y {
            assert(z * (z - 1) >= y * (y + 1)) by (nonlinear_arith)
                requires
                    z >= y + 1,
                    y >= 0,
            ;
        } else if z < y {
            assert(y * (y - 1) >= z * (z + 1)) by (nonlinear_arith)
                requires
                    y >= z + 1,
                    z >= 0,
            ;
        }
    }
}

/// Once the midpoint walk has passed the diagonal, no first-octant pixel is left.
proof fn lemma_octant_done(r: int, x: int, y: int, ox: int, oy: int)
    requires
        r >= 1,
        y >= -1,
        y < x,
        r * r <= x * x + y * y + y,
        circle_octant(r, ox, oy),
    ensures
        ox < x,
{
    assert((y + 1) * y == y * y + y) by (nonlinear_arith);
    if ox >= x {
        assert(oy * (oy - 1) >= (y + 1) * y) by (nonlinear_arith)
            requires
                oy >= y + 1,
                y + 1 >= 0,
        ;
        assert(ox * ox >= x * x) by (nonlinear_arith)
            requires
                ox >= x,
                x >= 0,
        ;
    }
}

/// One step of the midpoint walk keeps its invariants.
proof fn lemma_circle_step(r: int, x: int, y: int, d: int)
    requires
        0 <= r <= MAX_CIRCLE_RADIUS,
        circle_octant(r, x, y),
        d == (x + 1) * (x + 1) + y * y - y - r * r,
        r * r <= x * x + y * y + y,
    ensures
        y <= r,
        -4 * r - 4 <= d <= 4 * r + 4,
        d < 0 ==> (x + 1) * (x + 1) + y * y + y >= r * r,
        d < 0 ==> (x + 1 <= y ==> circle_octant(r, x + 1, y)),
        d >= 0 ==> (x + 1) * (x + 1) + (y - 1) * (y - 1) + (y - 1) >= r * r,
        d >= 0 ==> (x + 1 <= y - 1 ==> circle_octant(r, x + 1, y - 1)),
{
    if r == 0 {
        assert(d == 1) by (nonlinear_arith)
            requires
                x == 0,
                y == 0,
                r == 0,
                d == (x + 1) * (x + 1) + y * y - y - r * r,
        ;
        assert((x + 1) * (x + 1) + (y - 1) * (y - 1) + (y - 1) >= r * r) by (nonlinear_arith)
            requires
                x == 0,
                y == 0,
                r == 0,
        ;
        return;
    }
    assert(y * (y - 1) == y * y - y && y * (y + 1) == y * y + y) by (nonlinear_arith);
    assert(y <= r) by (nonlinear_arith)
        requires
            0 <= x <= y,
            y * (y - 1) < r * r - x * x,
            r >= 1,
    {
        if y > r {
            assert(y * (y - 1) >= r * r) by (nonlinear_arith)
                requires
                    y >= r + 1,
                    r >= 1,
            ;
        }
    }
    assert(-4 * r - 4 <= d <= 4 * r + 4) by (nonlinear_arith)
        requires
            d == (x + 1) * (x + 1) + y * y - y - r * r,
            x * x + y * y - y < r * r,
            r * r <= x * x + y * y + y,
            0 <= x <= y,
            y <= r,
    ;
    assert(d < 0 ==> (x + 1) * (x + 1) + y * y + y >= r * r) by (nonlinear_arith)
        requires
            r * r <= x * x + y * y + y,
            x >= 0,
    ;
    assert(d >= 0 ==> (x + 1) * (x + 1) + (y - 1) * (y - 1) + (y - 1) >= r * r) by (nonlinear_arith)
        requires
            d == (x + 1) * (x + 1) + y * y - y - r * r,
    ;
    assert(d < 0 ==> (x + 1 <= y ==> circle_octant(r, x + 1, y))) by (nonlinear_arith)
        requires
            d == (x + 1) * (x + 1) + y * y - y - r * r,
            r * r <= x * x + y * y + y,
            r >= 1,
            x >= 0,
    ;
    assert(d >= 0 ==> (x + 1 <= y - 1 ==> circle_octant(r, x + 1, y - 1))) by (nonlinear_arith)
        requires
            d == (x + 1) * (x + 1) + y * y - y - r * r,
            x * x + y * y - y < r * r,
            r >= 1,
            x >= 0,
    ;
}

/// Draws the outline of the circle of radius `r` around `(cx, cy)` with the
/// midpoint algorithm, clipped to the frame.
pub fn draw_circle(buf: &mut Vec<u32>, cx: isize, cy: isize, r: isize, color: u32)
    requires
        shape_fits(old(buf)@.len() as int, |px: int, py: int| on_circle(r as int, px - cx, py - cy)),
        circle_in_range(cx as int, cy as int, r as int),
    ensures
        final(buf)@ == painted(old(buf)@, color, |px: int, py: int| on_circle(r as int, px - cx, py - cy)),
{
    let mut x: isize = 0;
    let mut y: isize = r;
    let mut d: isize = 1 - r;
    proof {
        if r >= 1 {
            assert(r * (r - 1) < r * r - 0 * 0 <= r * (r + 1)) by (nonlinear_arith)
                requires
                    r >= 1,
            ;
        }
    }
    while x <= y
        invariant
            shape_fits(old(buf)@.len() as int, |px: int, py: int| on_circle(r as int, px - cx, py - cy)),
            circle_in_range(cx as int, cy as int, r as int),
            0 <= x,
            r < 0 ==> x == 0 && y == r,
            r >= 0 ==> -1 <= y <= r,
            r >= 0 ==> x <= y + 2,
            r >= 0 ==> (x == 0 ==> y == r),
            d == (x + 1) * (x + 1) + y * y - y - r * r,
            r >= 0 ==> r * r <= x * x + y * y + y,
            x <= y ==> circle_octant(r as int, x as int, y as int),
            buf@ == painted(old(buf)@, color, |px: int, py: int| circle_upto(r as int, x as int, px - cx, py - cy)),
        decreases r + 2 - x,
    {
        let ghost x0: int = x as int;
        let ghost y0: int = y as int;
        let ghost shape = |px: int, py: int| circle_upto(r as int, x0, px - cx, py - cy);
        let ghost image = |px: int, py: int|
            (iabs(px - cx) == x0 && iabs(py - cy) == y0) || (iabs(px - cx) == y0 && iabs(py - cy) == x0);
        proof {
            lemma_circle_step(r as int, x0, y0, d as int);
            assert forall|px: int, py: int| #[trigger] in_frame(px, py) && image(px, py) implies
                pixel_index(px, py) < buf@.len() by {
                assert(on_circle(r as int, px - cx, py - cy));
            }
        }
        plot_octants(buf, cx, cy, x, y, color);
        proof {
            lemma_paint_union(old(buf)@, color, shape, image);
            assert forall|px: int, py: int| #[trigger] in_frame(px, py) implies
                ((shape(px, py) || image(px, py)) <==> circle_upto(r as int, x0 + 1, px - cx, py - cy)) by {
                let a = iabs(px - cx);
                let b = iabs(py - cy);
                if circle_octant(r as int, a, b) && a == x0 {
                    lemma_octant_unique(r as int, x0, y0, b);
                }
                if circle_octant(r as int, b, a) && b == x0 {
                    lemma_octant_unique(r as int, x0, y0, a);
                }
            }
            lemma_paint_same(old(buf)@, color, |px: int, py: int| shape(px, py) || image(px, py),
                |px: int, py: int| circle_upto(r as int, x0 + 1, px - cx, py - cy));
        }
        x = x + 1;
        if d < 0 {
            d = d + 2 * x + 1;
        } else {
            y = y - 1;
            d = d + 2 * (x - y) + 1;
        }
        assert(d == (x + 1) * (x + 1) + y * y - y - r * r) by (nonlinear_arith)
            requires
                x == x0 + 1,
                y == y0 || y == y0 - 1,
                y == y0 ==> d == (x0 + 1) * (x0 + 1) + y0 * y0 - y0 - r * r + 2 * x + 1,
                y == y0 - 1 ==> d == (x0 + 1) * (x0 + 1) + y0 * y0 - y0 - r * r + 2 * (x - y) + 1,
        ;
    }
    proof {
        assert forall|px: int, py: int| #[trigger] in_frame(px, py) implies
            (circle_upto(r as int, x as int, px - cx, py - cy) <==> on_circle(r as int, px - cx, py - cy)) by {
            let a = iabs(px - cx);
            let b = iabs(py - cy);
            if r >= 1 {
                if circle_octant(r as int, a, b) {
                    lemma_octant_done(r as int, x as int, y as int, a, b);
                }
                if circle_octant(r as int, b, a) {
                    lemma_octant_done(r as int, x as int, y as int, b, a);
                }
            }
        }
        lemma_paint_same(old(buf)@, color, |px: int, py: int| circle_upto(r as int, x as int, px - cx, py - cy),
            |px: int, py: int| on_circle(r as int, px - cx, py - cy));
    }
}

/// Paints the eight reflections `(cx ± x, cy ± y)` and `(cx ± y, cy ± x)` of a first-octant offset.
fn plot_octants(buf: &mut Vec<u32>, cx: isize, cy: isize, x: isize, y: isize, color: u32)
    requires
        shape_fits(old(buf)@.len() as int, |px: int, py: int|
            (iabs(px - cx) == x && iabs(py - cy) == y) || (iabs(px - cx) == y && iabs(py - cy) == x)),
        -MAX_CENTER <= cx <= MAX_CENTER,
        -MAX_CENTER <= cy <= MAX_CENTER,
        0 <= x <= y <= MAX_CIRCLE_RADIUS,
    ensures
        final(buf)@ == painted(old(buf)@, color, |px: int, py: int|
            (iabs(px - cx) == x && iabs(py - cy) == y) || (iabs(px - cx) == y && iabs(py - cy) == x)),
{
    let pts: [(isize, isize); 8] = [
        (cx + x, cy + y), (cx - x, cy + y), (cx + x, cy - y), (cx - x, cy - y),
        (cx + y, cy + x), (cx - y, cy + x), (cx + y, cy - x), (cx - y, cy - x),
    ];
    let ghost target = |px: int, py: int|
        (iabs(px - cx) == x && iabs(py - cy) == y) || (iabs(px - cx) == y && iabs(py - cy) == x);
    assert forall|j: int| 0 <= j < 8 implies #[trigger] target(pts@[j].0 as int, pts@[j].1 as int) by {
        if j == 0 { assert(pts@[0].0 == cx + x && pts@[0].1 == cy + y); }
        if j == 1 { assert(pts@[1].0 == cx - x && pts@[1].1 == cy + y); }
        if j == 2 { assert(pts@[2].0 == cx + x && pts@[2].1 == cy - y); }
        if j == 3 { assert(pts@[3].0 == cx - x && pts@[3].1 == cy - y); }
        if j == 4 { assert(pts@[4].0 == cx + y && pts@[4].1 == cy + x); }
        if j == 5 { assert(pts@[5].0 == cx - y && pts@[5].1 == cy + x); }
        if j == 6 { assert(pts@[6].0 == cx + y && pts@[6].1 == cy - x); }
        if j == 7 { assert(pts@[7].0 == cx - y && pts@[7].1 == cy - x); }
    }
    let mut k: usize = 0;
    while k < 8
        invariant
            k <= 8,
            shape_fits(old(buf)@.len() as int, target),
            forall|j: int| 0 <= j < 8 ==> #[trigger] target(pts@[j].0 as int, pts@[j].1 as int),
            buf@ == painted(old(buf)@, color, |px: int, py: int|
                exists|j: int| 0 <= j < k && px == pts@[j].0 && py == pts@[j].1),
        decreases 8 - k,
    {
        let (px, py): (isize, isize) = pts[k];
        let ghost before = |qx: int, qy: int| exists|j: int| 0 <= j < k && qx == pts@[j].0 && qy == pts@[j].1;
        proof {
            assert(target(pts@[k as int].0 as int, pts@[k as int].1 as int));
        }
        set_px(buf, px, py, color);
        proof {
            lemma_paint_union(old(buf)@, color, before, |qx: int, qy: int| qx == px && qy == py);
            lemma_paint_same(old(buf)@, color, |qx: int, qy: int| before(qx, qy) || (qx == px && qy == py),
                |qx: int, qy: int| exists|j: int| 0 <= j < k + 1 && qx == pts@[j].0 && qy == pts@[j].1);
        }
        k = k + 1;
    }
    proof {
        assert forall|px: int, py: int| #[trigger] in_frame(px, py) implies
            ((exists|j: int| 0 <= j < 8 && px == pts@[j].0 && py == pts@[j].1) <==> target(px, py)) by {
            if target(px, py) {
                if px - cx == x && py - cy == y { assert(px == pts@[0].0 && py == pts@[0].1); }
                if px - cx == -x && py - cy == y { assert(px == pts@[1].0 && py == pts@[1].1); }
                if px - cx == x && py - cy == -y { assert(px == pts@[2].0 && py == pts@[2].1); }
                if px - cx == -x && py - cy == -y { assert(px == pts@[3].0 && py == pts@[3].1); }
                if px - cx == y && py - cy == x { assert(px == pts@[4].0 && py == pts@[4].1); }
                if px - cx == -y && py - cy == x { assert(px == pts@[5].0 && py == pts@[5].1); }
                if px - cx == y && py - cy == -x { assert(px == pts@[6].0 && py == pts@[6].1); }
                if px - cx == -y && py - cy == -x { assert(px == pts@[7].0 && py == pts@[7].1); }
            }
        }
        lemma_paint_same(old(buf)@, color, |qx: int, qy: int|
            exists|j: int| 0 <= j < 8 && qx == pts@[j].0 && qy == pts@[j].1, target);
    }
}

} // verus!

verus! {

/// Drawing a shape a second time in the same colour changes nothing.
pub proof fn lemma_paint_idempotent(s: Seq<u32>, color: u32, shape: spec_fn(int, int) -> bool)
    ensures
        painted(painted(s, color, shape), color, shape) == painted(s, color, shape),
{
    assert(painted(painted(s, color, shape), color, shape) =~= painted(s, color, shape));
}

/// Every pixel of a circle of radius `r >= 1` lies within one pixel of the ideal circle.
pub proof fn lemma_circle_near_radius(r: int, dx: int, dy: int)
    requires
        r >= 1,
        on_circle(r, dx, dy),
    ensures
        (r - 1) * (r - 1) <= dx * dx + dy * dy <= (r + 1) * (r + 1),
{
    let (x, y) = if circle_octant(r, iabs(dx), iabs(dy)) { (iabs(dx), iabs(dy)) } else { (iabs(dy), iabs(dx)) };
    assert(circle_octant(r, x, y));
    assert(x * x + y * y == dx * dx + dy * dy) by (nonlinear_arith)
        requires
            (x == iabs(dx) && y == iabs(dy)) || (x == iabs(dy) && y == iabs(dx)),
            iabs(dx) == dx || iabs(dx) == -dx,
            iabs(dy) == dy || iabs(dy) == -dy,
    ;
    assert((r - 1) * (r - 1) <= x * x + y * y <= (r + 1) * (r + 1)) by (nonlinear_arith)
        requires
            r >= 1,
            0 <= x <= y,
            y * (y - 1) < r * r - x * x,
            r * r - x * x <= y * (y + 1),
    {
        assert(y <= r) by (nonlinear_arith)
            requires
                r >= 1,
                0 <= x <= y,
                y * (y - 1) < r * r - x * x,
        {
            if y > r {
                assert(y * (y - 1) >= r * r) by (nonlinear_arith)
                    requires
                        y >= r + 1,
                        r >= 1,
                ;
            }
        }
    }
}

} // verus!
