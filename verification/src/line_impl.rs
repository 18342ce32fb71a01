//! Straight lines between integer points, drawn with integer arithmetic
//! alone by accumulating an error term.
//!
//! The pixels of a line are described in closed form: walking from the first
//! endpoint along the axis with the larger extent, the other coordinate is
//! the ideal line's value rounded to the nearest integer, halves rounded
//! away from the first endpoint.

use vstd::prelude::*;
use crate::canvas::Canvas;
use crate::framebuffer::Framebuffer;

verus! {

/// The distance between two coordinates.
pub open spec fn span(from: int, to: int) -> int {
    if from < to {
        to - from
    } else {
        from - to
    }
}

/// How many unit steps `at` lies from `from`, counted towards `to`.
pub open spec fn steps(from: int, to: int, at: int) -> int {
    if from < to {
        at - from
    } else {
        from - at
    }
}

/// `q` is the quotient `n / d` rounded to the nearest integer, with an exact
/// half rounded up. Never holds for `d == 0`.
pub open spec fn rounds_to(n: int, d: int, q: int) -> bool {
    2 * (d * q) <= 2 * n + d < 2 * (d * q) + 2 * d
}

/// Whether pixel `(x, y)` belongs to the line from `(x1, y1)` to `(x2, y2)`.
///
/// Let `i` and `j` count the steps of `(x, y)` from the first endpoint along
/// each axis. On a line at least as wide as it is high there is one pixel for
/// each `i` from zero up to the width, with `j` the rounding of
/// `height * i / width`; on a line higher than wide, one pixel for each `j`,
/// with `i` the rounding of `width * j / height`.
pub open spec fn on_line(x1: int, y1: int, x2: int, y2: int, x: int, y: int) -> bool {
    let dx = span(x1, x2);
    let dy = span(y1, y2);
    let i = steps(x1, x2, x);
    let j = steps(y1, y2, y);
    if dx >= dy {
        0 <= i <= dx && if dx == 0 {
            j == 0
        } else {
            rounds_to(dy * i, dx, j)
        }
    } else {
        0 <= j <= dy && rounds_to(dx * j, dy, i)
    }
}

/// The set of pixels of the line from `(x1, y1)` to `(x2, y2)`.
pub open spec fn line_points(x1: int, y1: int, x2: int, y2: int) -> Set<(int, int)> {
    Set::new(|p: (int, int)| on_line(x1, y1, x2, y2, p.0, p.1))
}

/// How far `(x, y)` lies from the first endpoint along the axis on which the
/// line has the larger extent.
pub open spec fn progress(x1: int, y1: int, x2: int, y2: int, x: int, y: int) -> int {
    if span(x1, x2) >= span(y1, y2) {
        steps(x1, x2, x)
    } else {
        steps(y1, y2, y)
    }
}

/// The pixels of the line that lie fewer than `n` steps from its start.
pub open spec fn line_prefix(x1: int, y1: int, x2: int, y2: int, n: int) -> Set<(int, int)> {
    Set::new(
        |p: (int, int)|
            on_line(x1, y1, x2, y2, p.0, p.1) && progress(x1, y1, x2, y2, p.0, p.1) < n,
    )
}

/// A rounded quotient is unique.
proof fn lemma_rounds_to_unique(n: int, d: int, q: int, r: int)
    requires
        rounds_to(n, d, q),
        rounds_to(n, d, r),
    ensures
        q == r,
{
    assert(q == r) by (nonlinear_arith)
        requires
            2 * (d * q) <= 2 * n + d < 2 * (d * q) + 2 * d,
            2 * (d * r) <= 2 * n + d < 2 * (d * r) + 2 * d,
    ;
}

/// A line holds exactly one pixel at each distance from its start: the point
/// that the walk along the line has reached.
proof fn lemma_prefix_extends(x1: int, y1: int, x2: int, y2: int, x: int, y: int)
    requires
        on_line(x1, y1, x2, y2, x, y),
    ensures
        line_prefix(x1, y1, x2, y2, progress(x1, y1, x2, y2, x, y)).union(set![(x, y)])
            == line_prefix(x1, y1, x2, y2, progress(x1, y1, x2, y2, x, y) + 1),
{
    let n = progress(x1, y1, x2, y2, x, y);
    let dx = span(x1, x2);
    let dy = span(y1, y2);
    let before = line_prefix(x1, y1, x2, y2, n).union(set![(x, y)]);
    let after = line_prefix(x1, y1, x2, y2, n + 1);
    assert forall|p: (int, int)| before.contains(p) <==> after.contains(p) by {
        if on_line(x1, y1, x2, y2, p.0, p.1) && progress(x1, y1, x2, y2, p.0, p.1) == n {
            let i = steps(x1, x2, x);
            let j = steps(y1, y2, y);
            let pi = steps(x1, x2, p.0);
            let pj = steps(y1, y2, p.1);
            if dx >= dy {
                if dx > 0 {
                    lemma_rounds_to_unique(dy * i, dx, j, pj);
                }
            } else {
                lemma_rounds_to_unique(dx * j, dy, i, pi);
            }
            assert(p == (x, y));
        }
    }
    assert(before =~= after);
}

/// Every pixel of a line lies at most as far from its start as its end does.
proof fn lemma_prefix_complete(x1: int, y1: int, x2: int, y2: int)
    ensures
        line_prefix(x1, y1, x2, y2, progress(x1, y1, x2, y2, x2, y2) + 1) == line_points(
            x1,
            y1,
            x2,
            y2,
        ),
{
    assert(line_prefix(x1, y1, x2, y2, progress(x1, y1, x2, y2, x2, y2) + 1) =~= line_points(
        x1,
        y1,
        x2,
        y2,
    ));
}

/// Drawing of straight lines onto a canvas.
pub trait Line: View<V = Canvas> {
    /// Draws the line from `(x1, y1)` to `(x2, y2)` in the current color.
    /// Pixels of the line that fall outside the canvas are left out.
    #[allow(non_snake_case)]
    fn Line(&mut self, x1: isize, y1: isize, x2: isize, y2: isize)
        requires
            old(self)@.wf(),
        ensures
            final(self)@.wf(),
            final(self)@ == old(self)@.paint(
                line_points(x1 as int, y1 as int, x2 as int, y2 as int),
                old(self)@.current_color,
            ),
    ;
}

impl Line for Framebuffer {
    #[allow(non_snake_case)]
    fn Line(&mut self, x1: isize, y1: isize, x2: isize, y2: isize) {
        let dx: i128 = if x1 < x2 {
            x2 as i128 - x1 as i128
        } else {
            x1 as i128 - x2 as i128
        };
        let sx: isize = if x1 < x2 {
            1
        } else {
            -1
        };
        let dy: i128 = if y1 < y2 {
            y1 as i128 - y2 as i128
        } else {
            y2 as i128 - y1 as i128
        };
        let sy: isize = if y1 < y2 {
            1
        } else {
            -1
        };
        let mut err: i128 = dx + dy;

        let mut x: isize = x1;
        let mut y: isize = y1;

        let ghost start = self@;
        let ghost color = self@.current_color;
        let ghost a: int = span(x1 as int, x2 as int);
        let ghost b: int = span(y1 as int, y2 as int);
        // Steps taken so far along each axis, and their products with the
        // extent of the other axis.
        let ghost mut i: int = 0;
        let ghost mut j: int = 0;
        let ghost mut bi: int = 0;
        let ghost mut aj: int = 0;
        proof {
            start.lemma_paint_nothing(color);
            assert(line_prefix(x1 as int, y1 as int, x2 as int, y2 as int, 0) =~= Set::empty());
        }

        loop
            invariant_except_break
                self@ == start.paint(
                    line_prefix(
                        x1 as int,
                        y1 as int,
                        x2 as int,
                        y2 as int,
                        progress(x1 as int, y1 as int, x2 as int, y2 as int, x as int, y as int),
                    ),
                    color,
                ),
            invariant
                self@.wf(),
                start.wf(),
                color == start.current_color,
                a == span(x1 as int, x2 as int),
                b == span(y1 as int, y2 as int),
                dx == a,
                dy == -b,
                sx == if x1 < x2 { 1int } else { -1int },
                sy == if y1 < y2 { 1int } else { -1int },
                i == steps(x1 as int, x2 as int, x as int),
                j == steps(y1 as int, y2 as int, y as int),
                0 <= i <= a,
                0 <= j <= b,
                bi == b * i,
                aj == a * j,
                err == aj + a - bi - b,
                on_line(x1 as int, y1 as int, x2 as int, y2 as int, x as int, y as int),
            ensures
                self@ == start.paint(
                    line_points(x1 as int, y1 as int, x2 as int, y2 as int),
                    color,
                ),
            decreases (a - i) + (b - j),
        {
            let ghost n = progress(x1 as int, y1 as int, x2 as int, y2 as int, x as int, y as int);
            let ghost drawn = line_prefix(x1 as int, y1 as int, x2 as int, y2 as int, n);
            self.point(x, y);
            proof {
                let before = start.paint(drawn, color);
                before.lemma_plot_is_paint(x as int, y as int);
                start.lemma_paint_twice(drawn, set![(x as int, y as int)], color);
                lemma_prefix_extends(
                    x1 as int,
                    y1 as int,
                    x2 as int,
                    y2 as int,
                    x as int,
                    y as int,
                );
                assert(self@ == start.paint(
                    line_prefix(x1 as int, y1 as int, x2 as int, y2 as int, n + 1),
                    color,
                ));
            }
            if x == x2 && y == y2 {
                proof {
                    lemma_prefix_complete(x1 as int, y1 as int, x2 as int, y2 as int);
                }
                break ;
            }
            proof {
                lemma_walk_continues(a, b, i, j, bi, aj);
            }
            let e2: i128 = 2 * err;
            if e2 >= dy {
                if x == x2 {
                    break ;
                }
                err = err + dy;
                x = x + sx;
                proof {
                    assert(b * (i + 1) == b * i + b) by (nonlinear_arith);
                    i = i + 1;
                    bi = bi + b;
                }
            }
            if e2 <= dx {
                if y == y2 {
                    break ;
                }
                err = err + dx;
                y = y + sy;
                proof {
                    assert(a * (j + 1) == a * j + a) by (nonlinear_arith);
                    j = j + 1;
                    aj = aj + a;
                }
            }
        }
    }
}

/// Both ends of a line belong to it.
pub proof fn lemma_line_holds_its_ends(x1: int, y1: int, x2: int, y2: int)
    ensures
        on_line(x1, y1, x2, y2, x1, y1),
        on_line(x1, y1, x2, y2, x2, y2),
{
    let dx = span(x1, x2);
    let dy = span(y1, y2);
    assert(dx * 0 == 0 && dy * 0 == 0) by (nonlinear_arith);
    assert(dy * dx == dx * dy) by (nonlinear_arith);
}

/// A horizontal line covers exactly the pixels of its row that lie between
/// its ends, both ends included.
pub proof fn lemma_horizontal_line(x1: int, x2: int, y: int)
    ensures
        line_points(x1, y, x2, y) == Set::new(
            |p: (int, int)| p.1 == y && (x1 <= p.0 <= x2 || x2 <= p.0 <= x1),
        ),
{
    let dx = span(x1, x2);
    let row = Set::new(|p: (int, int)| p.1 == y && (x1 <= p.0 <= x2 || x2 <= p.0 <= x1));
    assert forall|p: (int, int)| line_points(x1, y, x2, y).contains(p) <==> row.contains(p) by {
        let i = steps(x1, x2, p.0);
        let j = steps(y, y, p.1);
        assert(0 * i == 0) by (nonlinear_arith);
        if dx > 0 {
            assert(rounds_to(0, dx, j) <==> j == 0) by (nonlinear_arith)
                requires
                    dx > 0,
            ;
        }
    }
    assert(line_points(x1, y, x2, y) =~= row);
}

/// A vertical line covers exactly the pixels of its column that lie between
/// its ends, both ends included.
pub proof fn lemma_vertical_line(x: int, y1: int, y2: int)
    ensures
        line_points(x, y1, x, y2) == Set::new(
            |p: (int, int)| p.0 == x && (y1 <= p.1 <= y2 || y2 <= p.1 <= y1),
        ),
{
    let dy = span(y1, y2);
    let column = Set::new(|p: (int, int)| p.0 == x && (y1 <= p.1 <= y2 || y2 <= p.1 <= y1));
    assert forall|p: (int, int)| line_points(x, y1, x, y2).contains(p) <==> column.contains(
        p,
    ) by {
        let i = steps(x, x, p.0);
        let j = steps(y1, y2, p.1);
        assert(0 * j == 0) by (nonlinear_arith);
        if dy > 0 {
            assert(rounds_to(0, dy, i) <==> i == 0) by (nonlinear_arith)
                requires
                    dy > 0,
            ;
        }
    }
    assert(line_points(x, y1, x, y2) =~= column);
}

/// Whether the ideal line leaves the `i`-th column (or row) of its longer
/// axis exactly half-way between pixel `q` and pixel `q + 1` of the shorter
/// one. `major` and `minor` are the extents of the line along the two axes.
pub open spec fn tie_at(major: int, minor: int, i: int, q: int) -> bool {
    major > 0 && 0 <= i <= major && 2 * (minor * i) == 2 * (major * q) + major
}

/// Whether the ideal line from `(x1, y1)` to `(x2, y2)` passes somewhere
/// exactly half-way between two neighbouring pixels.
pub open spec fn has_tie(x1: int, y1: int, x2: int, y2: int) -> bool {
    let dx = span(x1, x2);
    let dy = span(y1, y2);
    if dx >= dy {
        exists|i: int, q: int| tie_at(dx, dy, i, q)
    } else {
        exists|j: int, q: int| tie_at(dy, dx, j, q)
    }
}

/// Rounding seen from the other end of the line: the quotient for the
/// mirrored step rounds to the mirrored pixel exactly when the quotient
/// itself lies within half a pixel of `q`, the half below left out and the
/// half above let in.
proof fn lemma_mirrored_rounding(major: int, minor: int, i: int, q: int)
    requires
        major > 0,
    ensures
        rounds_to(minor * (major - i), major, minor - q) <==> 2 * (major * q) < 2 * (minor * i)
            + major <= 2 * (major * q) + 2 * major,
{
    assert(minor * (major - i) == minor * major - minor * i) by (nonlinear_arith);
    assert(major * (minor - q) == minor * major - major * q) by (nonlinear_arith);
}

/// On a line without ties, a pixel belongs to the line exactly when it
/// belongs to the line drawn from the other end.
proof fn lemma_on_line_reversed(x1: int, y1: int, x2: int, y2: int, x: int, y: int)
    requires
        !has_tie(x1, y1, x2, y2),
    ensures
        on_line(x1, y1, x2, y2, x, y) == on_line(x2, y2, x1, y1, x, y),
{
    let dx = span(x1, x2);
    let dy = span(y1, y2);
    let i = steps(x1, x2, x);
    let j = steps(y1, y2, y);
    if dx >= dy {
        if dx > 0 {
            if dy > 0 {
                lemma_mirrored_rounding(dx, dy, i, j);
                assert(dx * (j - 1) == dx * j - dx) by (nonlinear_arith);
                if 0 <= i <= dx {
                    assert(!tie_at(dx, dy, i, j));
                    assert(!tie_at(dx, dy, i, j - 1));
                }
            } else {
                assert(0 * i == 0 && 0 * (dx - i) == 0) by (nonlinear_arith);
            }
        }
    } else {
        if dx > 0 {
            lemma_mirrored_rounding(dy, dx, j, i);
            assert(dy * (i - 1) == dy * i - dy) by (nonlinear_arith);
            if 0 <= j <= dy {
                assert(!tie_at(dy, dx, j, i));
                assert(!tie_at(dy, dx, j, i - 1));
            }
        } else {
            assert(0 * j == 0 && 0 * (dy - j) == 0) by (nonlinear_arith);
        }
    }
}

/// On a line with a tie, the pixel that the tie is rounded to belongs to the
/// line, and does not belong to the line drawn from the other end.
proof fn lemma_tie_breaks_symmetry(x1: int, y1: int, x2: int, y2: int) -> (p: (int, int))
    requires
        has_tie(x1, y1, x2, y2),
    ensures
        on_line(x1, y1, x2, y2, p.0, p.1),
        !on_line(x2, y2, x1, y1, p.0, p.1),
{
    let dx = span(x1, x2);
    let dy = span(y1, y2);
    if dx >= dy {
        let (i, q) = choose|i: int, q: int| tie_at(dx, dy, i, q);
        assert(dy > 0) by {
            if dy == 0 {
                assert(0 * i == 0) by (nonlinear_arith);
                assert(2 * (dx * q) + dx != 0) by (nonlinear_arith)
                    requires
                        dx > 0,
                ;
            }
        }
        let x = if x1 < x2 {
            x1 + i
        } else {
            x1 - i
        };
        let y = if y1 < y2 {
            y1 + (q + 1)
        } else {
            y1 - (q + 1)
        };
        lemma_mirrored_rounding(dx, dy, i, q + 1);
        assert(dx * (q + 1) == dx * q + dx) by (nonlinear_arith);
        (x, y)
    } else {
        let (j, q) = choose|j: int, q: int| tie_at(dy, dx, j, q);
        assert(dx > 0) by {
            if dx == 0 {
                assert(0 * j == 0) by (nonlinear_arith);
                assert(2 * (dy * q) + dy != 0) by (nonlinear_arith)
                    requires
                        dy > 0,
                ;
            }
        }
        let x = if x1 < x2 {
            x1 + (q + 1)
        } else {
            x1 - (q + 1)
        };
        let y = if y1 < y2 {
            y1 + j
        } else {
            y1 - j
        };
        lemma_mirrored_rounding(dy, dx, j, q + 1);
        assert(dy * (q + 1) == dy * q + dy) by (nonlinear_arith);
        (x, y)
    }
}

/// A line covers the same pixels as the line drawn from its other end
/// exactly when it has no tie: rounding a half goes away from the first
/// endpoint, so a tie is rounded to different pixels from the two ends.
pub proof fn lemma_line_symmetry(x1: int, y1: int, x2: int, y2: int)
    ensures
        line_points(x1, y1, x2, y2) == line_points(x2, y2, x1, y1) <==> !has_tie(x1, y1, x2, y2),
{
    if has_tie(x1, y1, x2, y2) {
        let p = lemma_tie_breaks_symmetry(x1, y1, x2, y2);
        assert(line_points(x1, y1, x2, y2).contains(p));
        assert(!line_points(x2, y2, x1, y1).contains(p));
    } else {
        assert forall|p: (int, int)|
            line_points(x1, y1, x2, y2).contains(p) == line_points(x2, y2, x1, y1).contains(p) by {
            lemma_on_line_reversed(x1, y1, x2, y2, p.0, p.1);
        }
        assert(line_points(x1, y1, x2, y2) =~= line_points(x2, y2, x1, y1));
    }
}

/// What the error term decides at a pixel of the line that is not its end:
/// along the axis of larger extent the walk always advances, along the other
/// it advances exactly when the ideal line has come at least half a pixel
/// closer to the next row or column; either way the next pixel is on the
/// line again and neither coordinate passes the end.
proof fn lemma_walk_continues(a: int, b: int, i: int, j: int, bi: int, aj: int)
    requires
        0 <= i <= a,
        0 <= j <= b,
        bi == b * i,
        aj == a * j,
        !(i == a && j == b),
        if a >= b {
            a == 0 || rounds_to(bi, a, j)
        } else {
            rounds_to(aj, b, i)
        },
    ensures
        a >= b ==> {
            &&& i < a
            &&& 2 * (aj + a - bi - b) >= -b
            &&& 2 * (aj + a - bi - b) <= a ==> j < b && rounds_to(bi + b, a, j + 1)
            &&& 2 * (aj + a - bi - b) > a ==> rounds_to(bi + b, a, j)
        },
        a < b ==> {
            &&& j < b
            &&& 2 * (aj + a - bi - b) <= a
            &&& 2 * (aj + a - bi - b) >= -b ==> i < a && rounds_to(aj + a, b, i + 1)
            &&& 2 * (aj + a - bi - b) < -b ==> rounds_to(aj + a, b, i)
        },
        -2 * (a + b) <= aj + a - bi - b <= 2 * (a + b),
{
    if a >= b {
        assert(a > 0);
        assert(a * (j + 1) == a * j + a) by (nonlinear_arith);
        assert(a * (j + 2) == a * j + 2 * a) by (nonlinear_arith);
        assert(a * b <= a * j ==> b <= j) by (nonlinear_arith)
            requires
                a > 0,
        ;
        assert(i < a) by {
            if i == a {
                assert(b * a == a * b) by (nonlinear_arith);
                assert(a * j < a * b + a && a * b < a * j + a ==> j == b) by (nonlinear_arith)
                    requires
                        a > 0,
                ;
            }
        }
        assert(b * (i + 1) <= b * a) by (nonlinear_arith)
            requires
                i + 1 <= a,
                0 <= b,
        ;
        assert(b * (i + 1) == b * i + b) by (nonlinear_arith);
        assert(b * a == a * b) by (nonlinear_arith);
    } else {
        assert(b > 0);
        assert(b * (i + 1) == b * i + b) by (nonlinear_arith);
        assert(b * (i + 2) == b * i + 2 * b) by (nonlinear_arith);
        assert(j < b) by {
            if j == b {
                assert(a * b == b * a) by (nonlinear_arith);
                assert(b * i < b * a + b && b * a < b * i + b ==> i == a) by (nonlinear_arith)
                    requires
                        b > 0,
                ;
            }
        }
        assert(a * (j + 1) <= a * b) by (nonlinear_arith)
            requires
                j + 1 <= b,
                0 <= a,
        ;
        assert(a * (j + 1) == a * j + a) by (nonlinear_arith);
        assert(a * b == b * a) by (nonlinear_arith);
    }
}

} // verus!
