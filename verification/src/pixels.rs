//! Straight strokes on a square canvas of four-byte pixels.

use vstd::prelude::*;
use vstd::arithmetic::div_mod::{lemma_fundamental_div_mod, lemma_fundamental_div_mod_converse};

verus! {

// ---------------------------------------------------------------------------
// Model
// ---------------------------------------------------------------------------

/// The bytes of a `size` by `size` canvas after every pixel that `covered`
/// picks, by column and row, took on `color`.
pub open spec fn painted(
    bytes: Seq<u8>,
    size: int,
    color: Seq<u8>,
    covered: spec_fn(int, int) -> bool,
) -> Seq<u8> {
    Seq::new(
        bytes.len(),
        |i: int|
            if on_canvas(size, column_of(size, i), row_of(size, i)) && covered(
                column_of(size, i),
                row_of(size, i),
            ) {
                color[i % 4]
            } else {
                bytes[i]
            },
    )
}

/// The column of the pixel that the byte at index `i` belongs to.
pub open spec fn column_of(size: int, i: int) -> int {
    (i / 4) % size
}

/// The row of the pixel that the byte at index `i` belongs to.
pub open spec fn row_of(size: int, i: int) -> int {
    (i / 4) / size
}

/// The index of the first byte of a pixel.
pub open spec fn pixel_offset(size: int, x: int, y: int) -> int {
    4 * (y * size + x)
}

pub open spec fn on_canvas(size: int, x: int, y: int) -> bool {
    0 <= x < size && 0 <= y < size
}

pub open spec fn distance(a: int, b: int) -> int {
    if a < b {
        b - a
    } else {
        a - b
    }
}

/// Half of `width`, rounded towards zero.
pub open spec fn half_width(width: int) -> int {
    if width >= 0 {
        width / 2
    } else {
        -((-width) / 2)
    }
}

/// The number of steps from one point to the other along the longer axis.
pub open spec fn line_steps(start: (int, int), end: (int, int)) -> int {
    let a = distance(start.0, end.0);
    let b = distance(start.1, end.1);
    if a >= b {
        a
    } else {
        b
    }
}

/// How far an axis of length `span` has come after `k` of `steps` steps:
/// `k * span / steps`, rounded to the nearest integer, halves up.
pub open spec fn progress(k: int, span: int, steps: int) -> int {
    if steps == 0 {
        0
    } else {
        (2 * k * span + steps) / (2 * steps)
    }
}

/// One coordinate after moving `progress` from `from` towards `to`.
pub open spec fn towards(from: int, to: int, progress: int) -> int {
    if from < to {
        from + progress
    } else {
        from - progress
    }
}

/// The `k`-th point of the line: the point nearest to the true line at that
/// step of the longer axis.
pub open spec fn line_point(start: (int, int), end: (int, int), k: int) -> (int, int) {
    let steps = line_steps(start, end);
    (
        towards(start.0, end.0, progress(k, distance(start.0, end.0), steps)),
        towards(start.1, end.1, progress(k, distance(start.1, end.1), steps)),
    )
}

/// Whether a pixel lies in the square with the given centre and half width.
pub open spec fn in_square(center: (int, int), half: int, x: int, y: int) -> bool {
    distance(x, center.0) <= half && distance(y, center.1) <= half
}

/// Whether one of the first `count` points of the line covers the pixel.
pub open spec fn line_prefix_covers(
    start: (int, int),
    end: (int, int),
    half: int,
    count: int,
    x: int,
    y: int,
) -> bool {
    exists|k: int|
        0 <= k < count && #[trigger] in_square(line_point(start, end, k), half, x, y)
}

/// Whether a line of the given width covers the pixel.
pub open spec fn line_covers(
    start: (int, int),
    end: (int, int),
    width: int,
    x: int,
    y: int,
) -> bool {
    line_prefix_covers(start, end, half_width(width), line_steps(start, end) + 1, x, y)
}

/// Whether every pixel of the line that is on the canvas has its four bytes in
/// a buffer of length `len`.
pub open spec fn line_fits(
    len: int,
    size: int,
    start: (int, int),
    end: (int, int),
    width: int,
) -> bool {
    forall|x: int, y: int|
        on_canvas(size, x, y) && #[trigger] line_covers(start, end, width, x, y) ==> pixel_offset(
            size,
            x,
            y,
        ) + 4 <= len
}

// ---------------------------------------------------------------------------
// Facts
// ---------------------------------------------------------------------------

proof fn lemma_pixel_of_byte(size: int, i: int, x: int, y: int)
    requires
        on_canvas(size, x, y),
        0 <= i,
    ensures
        (column_of(size, i) == x && row_of(size, i) == y) <==> pixel_offset(size, x, y) <= i
            < pixel_offset(size, x, y) + 4,
        0 <= column_of(size, i) < size,
        0 <= row_of(size, i),
{
    let p = i / 4;
    lemma_fundamental_div_mod(p, size);
    assert(p == size * (p / size) + p % size);
    assert(0 <= p % size < size);
    assert(p / size >= 0) by (nonlinear_arith)
        requires
            p >= 0,
            size > 0,
    ;
    if p == y * size + x {
        assert(p == size * y + x) by (nonlinear_arith)
            requires
                p == y * size + x,
        ;
        lemma_fundamental_div_mod_converse(p, size, y, x);
    }
    if p % size == x && p / size == y {
        assert(y * size == size * y) by (nonlinear_arith);
    }
}

proof fn lemma_painted_same(
    bytes: Seq<u8>,
    size: int,
    color: Seq<u8>,
    p: spec_fn(int, int) -> bool,
    q: spec_fn(int, int) -> bool,
)
    requires
        forall|x: int, y: int| on_canvas(size, x, y) ==> #[trigger] p(x, y) == q(x, y),
    ensures
        painted(bytes, size, color, p) == painted(bytes, size, color, q),
{
    assert(painted(bytes, size, color, p) =~= painted(bytes, size, color, q));
}

proof fn lemma_painted_twice(
    bytes: Seq<u8>,
    size: int,
    color: Seq<u8>,
    p: spec_fn(int, int) -> bool,
    q: spec_fn(int, int) -> bool,
    either: spec_fn(int, int) -> bool,
)
    requires
        forall|x: int, y: int|
            on_canvas(size, x, y) ==> (#[trigger] either(x, y) <==> p(x, y) || q(x, y)),
    ensures
        painted(painted(bytes, size, color, p), size, color, q) == painted(
            bytes,
            size,
            color,
            either,
        ),
{
    assert(painted(painted(bytes, size, color, p), size, color, q) =~= painted(
        bytes,
        size,
        color,
        either,
    ));
}

proof fn lemma_painted_nothing(
    bytes: Seq<u8>,
    size: int,
    color: Seq<u8>,
    p: spec_fn(int, int) -> bool,
)
    requires
        forall|x: int, y: int| on_canvas(size, x, y) ==> !#[trigger] p(x, y),
    ensures
        painted(bytes, size, color, p) == bytes,
{
    assert(painted(bytes, size, color, p) =~= bytes);
}

/// One step along the longer axis moves the other axis by zero or one, as the
/// doubled error term says.
proof fn lemma_progress_step(k: int, span: int, steps: int, at: int)
    requires
        0 <= span <= steps,
        0 < steps,
        0 <= k,
        at == progress(k, span, steps),
    ensures
        2 * steps * at <= 2 * k * span + steps < 2 * steps * (at + 1),
        progress(k + 1, span, steps) == at || progress(k + 1, span, steps) == at + 1,
        progress(k + 1, span, steps) == at + 1 <==> (2 * at + 1) * steps <= 2 * (k + 1) * span,
{
    let n = 2 * k * span + steps;
    let d = 2 * steps;
    lemma_fundamental_div_mod(n, d);
    let n1 = 2 * (k + 1) * span + steps;
    assert(n1 == n + 2 * span) by (nonlinear_arith)
        requires
            n == 2 * k * span + steps,
            n1 == 2 * (k + 1) * span + steps,
    ;
    assert(n == d * at + n % d);
    assert(d * (at + 1) == d * at + d) by (nonlinear_arith);
    assert((2 * at + 1) * steps == d * at + steps) by (nonlinear_arith)
        requires
            d == 2 * steps,
    ;
    assert(2 * steps * at == d * at);
    if n1 < d * (at + 1) {
        lemma_fundamental_div_mod_converse(n1, d, at, n1 - d * at);
    } else {
        assert(d * (at + 2) == d * at + 2 * d) by (nonlinear_arith);
        lemma_fundamental_div_mod_converse(n1, d, at + 1, n1 - d * (at + 1));
    }
}

/// The longer axis advances by one pixel at each step, and both axes arrive.
proof fn lemma_progress_ends(k: int, span: int, steps: int)
    requires
        0 < steps,
    ensures
        progress(k, steps, steps) == k,
        progress(0, span, steps) == 0,
        progress(steps, span, steps) == span,
{
    assert(2 * k * steps + steps == k * (2 * steps) + steps) by (nonlinear_arith);
    lemma_fundamental_div_mod_converse(2 * k * steps + steps, 2 * steps, k, steps);
    assert(2 * 0 * span + steps == 0 * (2 * steps) + steps) by (nonlinear_arith);
    lemma_fundamental_div_mod_converse(2 * 0 * span + steps, 2 * steps, 0, steps);
    assert(2 * steps * span + steps == span * (2 * steps) + steps) by (nonlinear_arith);
    lemma_fundamental_div_mod_converse(2 * steps * span + steps, 2 * steps, span, steps);
}

// ---------------------------------------------------------------------------
// Painting
// ---------------------------------------------------------------------------

fn paint_pixel(pixels: &mut Vec<u8>, size: i64, x: i64, y: i64, color: [u8; 4])
    requires
        on_canvas(size as int, x as int, y as int),
        size <= i32::MAX,
        pixel_offset(size as int, x as int, y as int) + 4 <= old(pixels).len(),
    ensures
        final(pixels)@ == painted(
            old(pixels)@,
            size as int,
            color@,
            |px: int, py: int| px == x && py == y,
        ),
{
    let ghost before = pixels@;
    assert(0 <= y * size < 0x4000_0000_0000_0000) by (nonlinear_arith)
        requires
            0 <= y < size,
            size <= 0x7fff_ffff,
    ;
    let offset: usize = ((y as u64 * size as u64 + x as u64) * 4) as usize;
    assert(offset == pixel_offset(size as int, x as int, y as int));
    pixels.set(offset, color[0]);
    pixels.set(offset + 1, color[1]);
    pixels.set(offset + 2, color[2]);
    pixels.set(offset + 3, color[3]);
    proof {
        let covered = |px: int, py: int| px == x && py == y;
        let after = painted(before, size as int, color@, covered);
        assert forall|i: int| 0 <= i < before.len() implies pixels@[i] == after[i] by {
            lemma_pixel_of_byte(size as int, i, x as int, y as int);
            assert(offset % 4 == 0);
            if offset <= i < offset + 4 {
                assert(i % 4 == i - offset);
            }
        }
        assert(pixels@ =~= after);
    }
}

fn paint_square(pixels: &mut Vec<u8>, size: i64, x: i64, y: i64, half: i64, color: [u8; 4])
    requires
        i32::MIN <= size <= i32::MAX,
        i32::MIN <= x <= i32::MAX,
        i32::MIN <= y <= i32::MAX,
        i32::MIN <= half <= i32::MAX,
        forall|px: int, py: int|
            on_canvas(size as int, px, py) && #[trigger] in_square(
                (x as int, y as int),
                half as int,
                px,
                py,
            ) ==> pixel_offset(size as int, px, py) + 4 <= old(pixels).len(),
    ensures
        final(pixels)@ == painted(
            old(pixels)@,
            size as int,
            color@,
            |px: int, py: int| in_square((x as int, y as int), half as int, px, py),
        ),
{
    let ghost before = pixels@;
    let ghost center = (x as int, y as int);
    let ghost s = size as int;
    let ghost h = half as int;
    let ghost target = |px: int, py: int| in_square(center, h, px, py);
    let mut row: i64 = y - half;
    proof {
        lemma_painted_nothing(
            before,
            s,
            color@,
            |px: int, py: int| in_square(center, h, px, py) && py < row,
        );
    }
    while row <= y + half
        invariant
            i32::MIN <= size <= i32::MAX,
            i32::MIN <= x <= i32::MAX,
            i32::MIN <= y <= i32::MAX,
            i32::MIN <= half <= i32::MAX,
            center == (x as int, y as int),
            s == size,
            h == half,
            y - half <= row,
            row <= y + half + 1 || half < 0,
            forall|px: int, py: int|
                on_canvas(s, px, py) && #[trigger] in_square(center, h, px, py) ==> pixel_offset(
                    s,
                    px,
                    py,
                ) + 4 <= before.len(),
            pixels@ == painted(
                before,
                s,
                color@,
                |px: int, py: int| in_square(center, h, px, py) && py < row,
            ),
        decreases y + half + 1 - row,
    {
        let ghost above = |px: int, py: int| in_square(center, h, px, py) && py < row;
        let mut column: i64 = x - half;
        proof {
            lemma_painted_same(
                before,
                s,
                color@,
                above,
                |px: int, py: int|
                    in_square(center, h, px, py) && (py < row || py == row && px < column),
            );
        }
        while column <= x + half
            invariant
                i32::MIN <= size <= i32::MAX,
                i32::MIN <= x <= i32::MAX,
                i32::MIN <= y <= i32::MAX,
                i32::MIN <= half <= i32::MAX,
                center == (x as int, y as int),
                s == size,
                h == half,
                y - half <= row <= y + half,
                x - half <= column <= x + half + 1,
                forall|px: int, py: int|
                    on_canvas(s, px, py) && #[trigger] in_square(center, h, px, py)
                        ==> pixel_offset(s, px, py) + 4 <= before.len(),
                pixels@ == painted(
                    before,
                    s,
                    color@,
                    |px: int, py: int|
                        in_square(center, h, px, py) && (py < row || py == row && px < column),
                ),
            decreases x + half + 1 - column,
        {
            let ghost done = |px: int, py: int|
                in_square(center, h, px, py) && (py < row || py == row && px < column);
            let ghost next = |px: int, py: int|
                in_square(center, h, px, py) && (py < row || py == row && px < column + 1);
            proof {
                assert(in_square(center, h, column as int, row as int));
            }
            if 0 <= column && column < size && 0 <= row && row < size {
                paint_pixel(pixels, size, column, row, color);
                proof {
                    lemma_painted_twice(
                        before,
                        s,
                        color@,
                        done,
                        |px: int, py: int| px == column && py == row,
                        next,
                    );
                }
            } else {
                proof {
                    lemma_painted_same(before, s, color@, done, next);
                }
            }
            column = column + 1;
        }
        proof {
            lemma_painted_same(
                before,
                s,
                color@,
                |px: int, py: int|
                    in_square(center, h, px, py) && (py < row || py == row && px < column),
                |px: int, py: int| in_square(center, h, px, py) && py < row + 1,
            );
        }
        row = row + 1;
    }
    proof {
        lemma_painted_same(
            before,
            s,
            color@,
            |px: int, py: int| in_square(center, h, px, py) && py < row,
            target,
        );
    }
}

/// Draws a line from `start` to `end` on a canvas of `size` by `size` pixels.
///
/// Each point of the line is a square of `width` pixels, or one more where
/// `width` is even. What falls outside the canvas is left out.
pub fn draw_line(
    pixels: &mut Vec<u8>,
    size: i32,
    start: (i32, i32),
    end: (i32, i32),
    width: i32,
    color: [u8; 4],
)
    requires
        line_fits(
            old(pixels).len() as int,
            size as int,
            (start.0 as int, start.1 as int),
            (end.0 as int, end.1 as int),
            width as int,
        ),
    ensures
        final(pixels)@ == painted(
            old(pixels)@,
            size as int,
            color@,
            |x: int, y: int|
                line_covers(
                    (start.0 as int, start.1 as int),
                    (end.0 as int, end.1 as int),
                    width as int,
                    x,
                    y,
                ),
        ),
{
    let ghost before = pixels@;
    let ghost from = (start.0 as int, start.1 as int);
    let ghost to = (end.0 as int, end.1 as int);
    let ghost s = size as int;
    let ghost h = half_width(width as int);
    let ghost steps = line_steps(from, to);
    let end_x: i64 = end.0 as i64;
    let end_y: i64 = end.1 as i64;
    let mut x: i64 = start.0 as i64;
    let mut y: i64 = start.1 as i64;
    let half: i64 = if width >= 0 { (width / 2) as i64 } else { 0 - (0 - width as i64) / 2 };
    let dx: i64 = if x < end_x { end_x - x } else { x - end_x };
    let sx: i64 = if x < end_x { 1 } else { -1 };
    let dy: i64 = if y < end_y { y - end_y } else { end_y - y };
    let sy: i64 = if y < end_y { 1 } else { -1 };
    let mut error: i64 = dx + dy;
    let ghost mut k: int = 0;
    proof {
        if steps > 0 {
            lemma_progress_ends(0, dx as int, steps);
            lemma_progress_ends(0, -dy as int, steps);
        }
        assert(progress(0, dx as int, steps) == 0 && progress(0, -dy as int, steps) == 0);
        assert((0 + 1) * dx - (0 + 1) * (-dy) == dx + dy);
        lemma_painted_nothing(
            before,
            s,
            color@,
            |px: int, py: int| line_prefix_covers(from, to, h, 0, px, py),
        );
    }
    loop
        invariant_except_break
            0 <= k <= steps,
            (x as int, y as int) == line_point(from, to, k),
            error == (progress(k, -dy as int, steps) + 1) * dx - (progress(k, dx as int, steps) + 1)
                * (-dy),
        invariant
            from == (start.0 as int, start.1 as int),
            to == (end.0 as int, end.1 as int),
            s == size,
            h == half_width(width as int),
            h == half,
            i32::MIN <= half <= i32::MAX,
            end_x == to.0,
            end_y == to.1,
            steps == line_steps(from, to),
            dx == distance(from.0, to.0),
            -dy == distance(from.1, to.1),
            sx == (if from.0 < to.0 { 1int } else { -1int }),
            sy == (if from.1 < to.1 { 1int } else { -1int }),
            line_fits(before.len() as int, s, from, to, width as int),
            pixels@ == painted(
                before,
                s,
                color@,
                |px: int, py: int| line_prefix_covers(from, to, h, k, px, py),
            ),
        ensures
            k == steps + 1,
            pixels@ == painted(
                before,
                s,
                color@,
                |px: int, py: int| line_prefix_covers(from, to, h, k, px, py),
            ),
        decreases steps - k,
    {
        proof {
            lemma_line_bounds(from, to, k);
            assert forall|px: int, py: int|
                on_canvas(s, px, py) && #[trigger] in_square((x as int, y as int), h, px, py)
                implies pixel_offset(s, px, py) + 4 <= before.len() by {
                assert(in_square(line_point(from, to, k), h, px, py));
                assert(line_covers(from, to, width as int, px, py));
            }
        }
        paint_square(pixels, size as i64, x, y, half, color);
        proof {
            let done = |px: int, py: int| line_prefix_covers(from, to, h, k, px, py);
            let next = |px: int, py: int| line_prefix_covers(from, to, h, k + 1, px, py);
            let here = |px: int, py: int| in_square((x as int, y as int), h, px, py);
            assert forall|px: int, py: int| on_canvas(s, px, py) implies (#[trigger] next(px, py)
                <==> done(px, py) || here(px, py)) by {
                if here(px, py) {
                    assert(in_square(line_point(from, to, k), h, px, py));
                }
            }
            lemma_painted_twice(before, s, color@, done, here, next);
            k = k + 1;
        }
        if x == end_x && y == end_y {
            proof {
                lemma_line_arrives(from, to, k - 1);
            }
            break;
        }
        proof {
            lemma_line_arrives(from, to, k - 1);
            lemma_error_step(from, to, k - 1, error as int);
        }
        let doubled: i64 = 2 * error;
        if doubled >= dy {
            error = error + dy;
            x = x + sx;
        }
        if doubled <= dx {
            error = error + dx;
            y = y + sy;
        }
    }
    proof {
        lemma_painted_same(
            before,
            s,
            color@,
            |px: int, py: int| line_prefix_covers(from, to, h, k, px, py),
            |px: int, py: int| line_covers(from, to, width as int, px, py),
        );
    }
}

/// Every point of the line lies between its two ends.
proof fn lemma_line_bounds(start: (int, int), end: (int, int), k: int)
    requires
        0 <= k <= line_steps(start, end),
    ensures
        0 <= progress(k, distance(start.0, end.0), line_steps(start, end)) <= distance(
            start.0,
            end.0,
        ),
        0 <= progress(k, distance(start.1, end.1), line_steps(start, end)) <= distance(
            start.1,
            end.1,
        ),
{
    let steps = line_steps(start, end);
    if steps > 0 {
        lemma_progress_bounds(k, distance(start.0, end.0), steps);
        lemma_progress_bounds(k, distance(start.1, end.1), steps);
    }
}

proof fn lemma_progress_bounds(k: int, span: int, steps: int)
    requires
        0 <= k <= steps,
        0 <= span,
        0 < steps,
    ensures
        0 <= progress(k, span, steps) <= span,
{
    let n = 2 * k * span + steps;
    let d = 2 * steps;
    lemma_fundamental_div_mod(n, d);
    assert(0 <= n < d * (span + 1)) by (nonlinear_arith)
        requires
            n == 2 * k * span + steps,
            d == 2 * steps,
            0 <= k <= steps,
            0 <= span,
            0 < steps,
    ;
    assert(0 <= n / d <= span) by (nonlinear_arith)
        requires
            0 <= n < d * (span + 1),
            n == d * (n / d) + n % d,
            0 <= n % d < d,
    ;
}

/// The line is at its end after its last step and not before.
proof fn lemma_line_arrives(start: (int, int), end: (int, int), k: int)
    requires
        0 <= k <= line_steps(start, end),
    ensures
        line_point(start, end, k) == end <==> k == line_steps(start, end),
{
    let steps = line_steps(start, end);
    if steps > 0 {
        let a = distance(start.0, end.0);
        let b = distance(start.1, end.1);
        lemma_progress_ends(k, a, steps);
        lemma_progress_ends(k, b, steps);
    }
}

/// What the error term says about the step that follows point `k`.
proof fn lemma_error_step(start: (int, int), end: (int, int), k: int, error: int)
    requires
        0 <= k < line_steps(start, end),
        error == (progress(k, distance(start.1, end.1), line_steps(start, end)) + 1) * distance(
            start.0,
            end.0,
        ) - (progress(k, distance(start.0, end.0), line_steps(start, end)) + 1) * distance(
            start.1,
            end.1,
        ),
    ensures
        ({
            let steps = line_steps(start, end);
            let a = distance(start.0, end.0);
            let b = distance(start.1, end.1);
            let i = progress(k, a, steps);
            let j = progress(k, b, steps);
            &&& -2 * steps <= error <= 2 * steps
            &&& progress(k + 1, a, steps) == (if 2 * error >= -b { i + 1 } else { i })
            &&& progress(k + 1, b, steps) == (if 2 * error <= a { j + 1 } else { j })
            &&& (j + 2) * a == (j + 1) * a + a
            &&& (i + 2) * b == (i + 1) * b + b
        }),
{
    let steps = line_steps(start, end);
    let a = distance(start.0, end.0);
    let b = distance(start.1, end.1);
    let i = progress(k, a, steps);
    let j = progress(k, b, steps);
    lemma_progress_ends(k, a, steps);
    lemma_progress_ends(k + 1, a, steps);
    lemma_progress_ends(k, b, steps);
    lemma_progress_ends(k + 1, b, steps);
    lemma_progress_step(k, a, steps, i);
    lemma_progress_step(k, b, steps, j);
    assert((j + 2) * a == (j + 1) * a + a) by (nonlinear_arith);
    assert((i + 2) * b == (i + 1) * b + b) by (nonlinear_arith);
    if a >= b {
        assert(steps == a && i == k);
        assert(2 * a * j == 2 * (j * a) && 2 * a * (j + 1) == 2 * ((j + 1) * a)) by (nonlinear_arith);
        assert(2 * k * b == 2 * (k * b)) by (nonlinear_arith);
        assert((k + 1) * b == k * b + b && (j + 1) * a == j * a + a) by (nonlinear_arith);
        assert((2 * j + 1) * a == 2 * (j * a) + a && 2 * (k + 1) * b == 2 * (k * b) + 2 * b)
            by (nonlinear_arith);
    } else {
        assert(steps == b && j == k);
        assert(2 * b * i == 2 * (i * b) && 2 * b * (i + 1) == 2 * ((i + 1) * b)) by (nonlinear_arith);
        assert(2 * k * a == 2 * (k * a)) by (nonlinear_arith);
        assert((k + 1) * a == k * a + a && (i + 1) * b == i * b + b) by (nonlinear_arith);
        assert((2 * i + 1) * b == 2 * (i * b) + b && 2 * (k + 1) * a == 2 * (k * a) + 2 * a)
            by (nonlinear_arith);
    }
}

// ---------------------------------------------------------------------------
// Laws
// ---------------------------------------------------------------------------

/// Painting gives the four bytes of a pixel the color if the pixel is covered, and leaves
/// them as they are if it is not.
pub proof fn painting_fills_the_covered_pixels(
    bytes: Seq<u8>,
    size: int,
    color: Seq<u8>,
    covered: spec_fn(int, int) -> bool,
    x: int,
    y: int,
    channel: int,
)
    requires
        on_canvas(size, x, y),
        0 <= channel < 4,
        bytes.len() == 4 * (size * size),
    ensures
        painted(bytes, size, color, covered).len() == bytes.len(),
        painted(bytes, size, color, covered)[pixel_offset(size, x, y) + channel] == if covered(
            x,
            y,
        ) {
            color[channel]
        } else {
            bytes[pixel_offset(size, x, y) + channel]
        },
{
    let i = pixel_offset(size, x, y) + channel;
    assert(0 <= y * size && y * size + x < size * size) by (nonlinear_arith)
        requires
            0 <= x < size,
            0 <= y < size,
    ;
    lemma_pixel_of_byte(size, i, x, y);
    assert(i % 4 == channel);
}

/// A line covers both of its ends, and nothing that is further from the rectangle between
/// them than half its width.
pub proof fn lines_go_from_end_to_end(
    start: (int, int),
    end: (int, int),
    width: int,
    x: int,
    y: int,
)
    requires
        width >= 0,
    ensures
        line_covers(start, end, width, start.0, start.1),
        line_covers(start, end, width, end.0, end.1),
        line_covers(start, end, width, x, y) ==> {
            &&& 2 * x >= 2 * start.0 - width || 2 * x >= 2 * end.0 - width
            &&& 2 * x <= 2 * start.0 + width || 2 * x <= 2 * end.0 + width
            &&& 2 * y >= 2 * start.1 - width || 2 * y >= 2 * end.1 - width
            &&& 2 * y <= 2 * start.1 + width || 2 * y <= 2 * end.1 + width
        },
{
    let half = half_width(width);
    let steps = line_steps(start, end);
    lemma_line_arrives(start, end, steps);
    assert(in_square(line_point(start, end, steps), half, end.0, end.1));
    if steps > 0 {
        lemma_progress_ends(0, distance(start.0, end.0), steps);
        lemma_progress_ends(0, distance(start.1, end.1), steps);
    }
    assert(in_square(line_point(start, end, 0), half, start.0, start.1));
    if line_covers(start, end, width, x, y) {
        let k = choose|k: int|
            0 <= k < steps + 1 && #[trigger] in_square(line_point(start, end, k), half, x, y);
        lemma_line_bounds(start, end, k);
    }
}

/// Each point of a line is one step further along the longer axis, and as near to the true
/// line as a pixel can be along the other.
pub proof fn lines_follow_the_true_line(start: (int, int), end: (int, int), k: int)
    requires
        0 <= k <= line_steps(start, end),
    ensures
        ({
            let point = line_point(start, end, k);
            let steps = line_steps(start, end);
            let along = (distance(start.0, point.0), distance(start.1, point.1));
            let span = (distance(start.0, end.0), distance(start.1, end.1));
            &&& steps == span.0 || steps == span.1
            &&& span.0 <= steps && span.1 <= steps
            &&& span.0 == steps ==> along.0 == k
            &&& span.1 == steps ==> along.1 == k
            &&& 2 * (steps * along.0) <= 2 * (k * span.0) + steps
            &&& 2 * (k * span.0) <= 2 * (steps * along.0) + steps
            &&& 2 * (steps * along.1) <= 2 * (k * span.1) + steps
            &&& 2 * (k * span.1) <= 2 * (steps * along.1) + steps
            &&& start.0 <= end.0 ==> start.0 <= point.0 <= end.0
            &&& start.0 >= end.0 ==> start.0 >= point.0 >= end.0
            &&& start.1 <= end.1 ==> start.1 <= point.1 <= end.1
            &&& start.1 >= end.1 ==> start.1 >= point.1 >= end.1
        }),
{
    let steps = line_steps(start, end);
    let a = distance(start.0, end.0);
    let b = distance(start.1, end.1);
    lemma_line_bounds(start, end, k);
    if steps > 0 {
        lemma_progress_ends(k, a, steps);
        lemma_progress_near(k, a, steps);
        lemma_progress_near(k, b, steps);
    } else {
        assert(k == 0);
        assert(a == 0 && b == 0);
    }
}

proof fn lemma_progress_near(k: int, span: int, steps: int)
    requires
        0 < steps,
        0 <= span <= steps,
        0 <= k,
    ensures
        2 * (steps * progress(k, span, steps)) <= 2 * (k * span) + steps,
        2 * (k * span) <= 2 * (steps * progress(k, span, steps)) + steps,
{
    let at = progress(k, span, steps);
    lemma_progress_step(k, span, steps, at);
    assert(2 * steps * at == 2 * (steps * at)) by (nonlinear_arith);
    assert(2 * k * span == 2 * (k * span)) by (nonlinear_arith);
    assert(2 * steps * (at + 1) == 2 * (steps * at) + 2 * steps) by (nonlinear_arith);
}

/// A line covers every pixel that is within half its width of one of its points in both
/// directions, and no other.
pub proof fn lines_are_as_wide_as_they_should_be(
    start: (int, int),
    end: (int, int),
    width: int,
    x: int,
    y: int,
)
    requires
        width >= 0,
    ensures
        line_covers(start, end, width, x, y) <==> exists|k: int|
            0 <= k <= line_steps(start, end) && {
                let point = #[trigger] line_point(start, end, k);
                &&& 2 * point.0 - width <= 2 * x <= 2 * point.0 + width
                &&& 2 * point.1 - width <= 2 * y <= 2 * point.1 + width
            },
{
    let half = half_width(width);
    let steps = line_steps(start, end);
    if line_covers(start, end, width, x, y) {
        let k = choose|k: int|
            0 <= k < steps + 1 && #[trigger] in_square(line_point(start, end, k), half, x, y);
        let point = line_point(start, end, k);
        assert(2 * point.0 - width <= 2 * x <= 2 * point.0 + width);
        assert(0 <= k <= line_steps(start, end));
    }
    if exists|k: int|
        0 <= k <= line_steps(start, end) && {
            let point = #[trigger] line_point(start, end, k);
            &&& 2 * point.0 - width <= 2 * x <= 2 * point.0 + width
            &&& 2 * point.1 - width <= 2 * y <= 2 * point.1 + width
        } {
        let k = choose|k: int|
            0 <= k <= line_steps(start, end) && {
                let point = #[trigger] line_point(start, end, k);
                &&& 2 * point.0 - width <= 2 * x <= 2 * point.0 + width
                &&& 2 * point.1 - width <= 2 * y <= 2 * point.1 + width
            };
        assert(in_square(line_point(start, end, k), half, x, y));
    }
}

} // verus!
