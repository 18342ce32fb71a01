//! Polygons given by their vertices: the outline, drawn edge by edge, and the
//! interior, filled scanline by scanline under the even-odd rule.

use vstd::prelude::*;
use vstd::relations::{sorted_by, total_ordering};
use vstd::seq_lib::{
    lemma_seq_union_to_multiset_commutative,
    lemma_sorted_unique,
    to_multiset_insert,
    to_multiset_len,
    to_multiset_remove,
};
use crate::framebuffer::Framebuffer;
use crate::line_impl::{lemma_horizontal_line, line_points, Line};

verus! {

/// A vertex of a polygon, in pixel coordinates.
#[derive(Debug, Copy, Clone, PartialEq, Eq)]
pub struct Point {
    pub x: isize,
    pub y: isize,
}

/// Why a polygon was not drawn.
#[derive(Debug, Copy, Clone, PartialEq, Eq)]
pub enum PolygonError {
    /// A polygon needs at least three vertices.
    TooFewVertices,
}

/// The index of the vertex that follows vertex `k` around a polygon of `n`
/// vertices: the last vertex is followed by the first.
pub open spec fn following(n: int, k: int) -> int {
    (k + 1) % n
}

/// The pixels of the edge that leaves vertex `k`.
pub open spec fn edge_points(vertices: Seq<Point>, k: int) -> Set<(int, int)> {
    let start = vertices[k];
    let end = vertices[following(vertices.len() as int, k)];
    line_points(start.x as int, start.y as int, end.x as int, end.y as int)
}

/// The pixels of the edges that leave the first `n` vertices.
pub open spec fn outline_prefix(vertices: Seq<Point>, n: int) -> Set<(int, int)> {
    Set::new(|p: (int, int)| exists|k: int| 0 <= k < n && #[trigger] edge_points(vertices, k).contains(p))
}

/// The pixels of all edges of the polygon, the edge from the last vertex
/// back to the first included.
pub open spec fn outline(vertices: Seq<Point>) -> Set<(int, int)> {
    outline_prefix(vertices, vertices.len() as int)
}

/// Draws the outline of a polygon in `line_color`, which becomes the current
/// color. With fewer than three vertices nothing is drawn and nothing
/// changes.
pub fn draw_polygon(framebuffer: &mut Framebuffer, vertices: &[Point], line_color: u32) -> (done:
    Result<(), PolygonError>)
    requires
        old(framebuffer).wf(),
    ensures
        final(framebuffer).wf(),
        vertices@.len() < 3 ==> done == Err::<(), PolygonError>(PolygonError::TooFewVertices)
            && final(framebuffer)@ == old(framebuffer)@,
        vertices@.len() >= 3 ==> done == Ok::<(), PolygonError>(()) && final(framebuffer)@ == old(
            framebuffer,
        )@.with_current_color(line_color).paint(outline(vertices@), line_color),
{
    if vertices.len() < 3 {
        return Err(PolygonError::TooFewVertices);
    }
    framebuffer.set_current_color(line_color);

    let ghost base = framebuffer@;
    proof {
        base.lemma_paint_nothing(line_color);
        assert(outline_prefix(vertices@, 0) =~= Set::empty());
    }
    let n: usize = vertices.len();
    let mut i: usize = 0;
    while i < n
        invariant
            i <= n,
            n == vertices@.len(),
            base.wf(),
            base.current_color == line_color,
            framebuffer.wf(),
            framebuffer@ == base.paint(outline_prefix(vertices@, i as int), line_color),
        decreases n - i,
    {
        let next: usize = (i + 1) % n;
        let start: Point = vertices[i];
        let end: Point = vertices[next];
        framebuffer.Line(start.x, start.y, end.x, end.y);
        proof {
            base.lemma_paint_twice(
                outline_prefix(vertices@, i as int),
                edge_points(vertices@, i as int),
                line_color,
            );
            assert(outline_prefix(vertices@, i as int).union(edge_points(vertices@, i as int))
                =~= outline_prefix(vertices@, i + 1));
        }
        i += 1;
    }
    Ok(())
}

/// The quotient of `n` by `d` with its fraction dropped, so that it rounds
/// towards zero whatever the signs. Meaningful for `d != 0`.
pub open spec fn truncated_quotient(n: int, d: int) -> int {
    if d > 0 {
        if n >= 0 {
            n / d
        } else {
            -((-n) / d)
        }
    } else {
        if n >= 0 {
            -(n / (-d))
        } else {
            (-n) / (-d)
        }
    }
}

/// Whether the scanline at height `y` crosses an edge whose ends have the
/// heights `y1` and `y2`. The lower end counts, the upper end does not, and a
/// horizontal edge is never crossed.
pub open spec fn crosses(y1: int, y2: int, y: int) -> bool {
    (y1 <= y && y < y2) || (y2 <= y && y < y1)
}

/// Where the edge from `(x1, y1)` to `(x2, y2)` meets the scanline at height
/// `y`: linear interpolation with a truncating division.
pub open spec fn intersection(x1: int, y1: int, x2: int, y2: int, y: int) -> int {
    x1 + truncated_quotient((y - y1) * (x2 - x1), y2 - y1)
}

/// The interpolation of an edge at a scanline that crosses it, computed on
/// magnitudes so that no intermediate value leaves its type.
fn intersection_x(x1: isize, y1: isize, x2: isize, y2: isize, y: isize) -> (x: isize)
    requires
        crosses(y1 as int, y2 as int, y as int),
    ensures
        x == intersection(x1 as int, y1 as int, x2 as int, y2 as int, y as int),
        x1 <= x <= x2 || x2 <= x <= x1,
{
    let rise: u128 = if y1 <= y {
        (y as i128 - y1 as i128) as u128
    } else {
        (y1 as i128 - y as i128) as u128
    };
    let height: u128 = if y1 <= y2 {
        (y2 as i128 - y1 as i128) as u128
    } else {
        (y1 as i128 - y2 as i128) as u128
    };
    let run: u128 = if x1 <= x2 {
        (x2 as i128 - x1 as i128) as u128
    } else {
        (x1 as i128 - x2 as i128) as u128
    };
    proof {
        assert(rise * run <= 0xFFFF_FFFF_FFFF_FFFF * 0xFFFF_FFFF_FFFF_FFFF) by (nonlinear_arith)
            requires
                0 <= rise <= 0xFFFF_FFFF_FFFF_FFFF,
                0 <= run <= 0xFFFF_FFFF_FFFF_FFFF,
        ;
        assert((rise * run) / (height as int) <= run) by (nonlinear_arith)
            requires
                0 <= rise <= height,
                0 < height,
                0 <= run,
        ;
        assert(0 <= (rise * run) / (height as int)) by (nonlinear_arith)
            requires
                0 <= rise,
                0 < height,
                0 <= run,
        ;
        let n = (y - y1) * (x2 - x1);
        if y1 <= y {
            if x1 <= x2 {
                assert(n == rise * run) by (nonlinear_arith)
                    requires
                        n == (y - y1) * (x2 - x1),
                        rise == y - y1,
                        run == x2 - x1,
                ;
            } else {
                assert(-n == rise * run) by (nonlinear_arith)
                    requires
                        n == (y - y1) * (x2 - x1),
                        rise == y - y1,
                        run == x1 - x2,
                ;
            }
        } else {
            if x1 <= x2 {
                assert(-n == rise * run) by (nonlinear_arith)
                    requires
                        n == (y - y1) * (x2 - x1),
                        rise == y1 - y,
                        run == x2 - x1,
                ;
            } else {
                assert(n == rise * run) by (nonlinear_arith)
                    requires
                        n == (y - y1) * (x2 - x1),
                        rise == y1 - y,
                        run == x1 - x2,
                ;
            }
        }
        assert(0int / (height as int) == 0) by (nonlinear_arith)
            requires
                0 < height,
        ;
    }
    let shift: u128 = rise * run / height;
    if x1 <= x2 {
        (x1 as i128 + shift as i128) as isize
    } else {
        (x1 as i128 - shift as i128) as isize
    }
}

/// The two ends of the edge that leaves vertex `k`, as `(x1, y1, x2, y2)`.
pub open spec fn edge_of(vertices: Seq<Point>, k: int) -> (int, int, int, int) {
    let start = vertices[k];
    let end = vertices[following(vertices.len() as int, k)];
    (start.x as int, start.y as int, end.x as int, end.y as int)
}

/// Where the scanline at height `y` meets the edges that leave the first `n`
/// vertices, in the order of the edges.
pub open spec fn crossings_of(vertices: Seq<Point>, y: int, n: int) -> Seq<int>
    decreases n,
{
    if n <= 0 {
        Seq::empty()
    } else {
        let (x1, y1, x2, y2) = edge_of(vertices, n - 1);
        let before = crossings_of(vertices, y, n - 1);
        if crosses(y1, y2, y) {
            before.push(intersection(x1, y1, x2, y2, y))
        } else {
            before
        }
    }
}

/// Where the scanline at height `y` meets the polygon, in ascending order.
pub open spec fn crossings(vertices: Seq<Point>, y: int) -> Seq<int> {
    crossings_of(vertices, y, vertices.len() as int).sort()
}

/// Whether `x` lies in the `k`-th span of a scanline with the sorted
/// crossings `sorted`: between crossing `2k` and crossing `2k + 1`, both
/// included.
pub open spec fn in_span(sorted: Seq<int>, k: int, x: int) -> bool {
    0 <= k && 2 * k + 1 < sorted.len() && sorted[2 * k] <= x <= sorted[2 * k + 1]
}

/// Whether `x` lies in one of the first `n` spans. A crossing left without a
/// partner opens no span.
pub open spec fn in_spans(sorted: Seq<int>, n: int, x: int) -> bool {
    exists|k: int| k < n && #[trigger] in_span(sorted, k, x)
}

/// The pixels at height `y` in the first `n` spans of `sorted`.
pub open spec fn row_spans(sorted: Seq<int>, y: int, n: int) -> Set<(int, int)> {
    Set::new(|p: (int, int)| p.1 == y && in_spans(sorted, n, p.0))
}

/// The interior of the polygon under the even-odd rule: on every scanline,
/// the pixels between the first and second crossing, between the third and
/// fourth, and so on.
pub open spec fn fill_region(vertices: Seq<Point>) -> Set<(int, int)> {
    Set::new(
        |p: (int, int)| in_spans(crossings(vertices, p.1), crossings(vertices, p.1).len() as int, p.0),
    )
}

/// The part of the interior on the scanlines from `low` up to, not
/// including, `high`.
pub open spec fn fill_rows(vertices: Seq<Point>, low: int, high: int) -> Set<(int, int)> {
    Set::new(|p: (int, int)| low <= p.1 < high && fill_region(vertices).contains(p))
}

/// The values of a sequence of machine integers.
pub open spec fn values(s: Seq<isize>) -> Seq<int> {
    s.map_values(|v: isize| v as int)
}

/// Whether a sequence never decreases.
pub open spec fn ascending(s: Seq<isize>) -> bool {
    forall|i: int, j: int| 0 <= i < j < s.len() ==> s[i] <= s[j]
}

/// Sorts the vector by calling `sort` of the standard library's slices
/// (`<[isize]>::sort`). Not proved here but taken from its documentation:
/// afterwards the vector is in ascending order and holds the elements it held
/// before, each as often as before.
#[verifier::external_body]
fn sort_ascending(numbers: &mut Vec<isize>)
    ensures
        ascending(final(numbers)@),
        final(numbers)@.to_multiset() == old(numbers)@.to_multiset(),
{
    numbers.sort();
}

/// Two sequences with the same elements still have the same elements after
/// one function was applied to each element of both.
proof fn lemma_same_elements_mapped<A, B>(s: Seq<A>, t: Seq<A>, f: spec_fn(A) -> B)
    requires
        s.to_multiset() == t.to_multiset(),
    ensures
        s.map_values(f).to_multiset() == t.map_values(f).to_multiset(),
    decreases s.len(),
{
    to_multiset_len(s);
    to_multiset_len(t);
    if s.len() == 0 {
        assert(s.map_values(f) =~= t.map_values(f));
    } else {
        let a = s.last();
        let s0 = s.drop_last();
        assert(s =~= s0.push(a));
        s0.to_multiset_ensures();
        assert(s.to_multiset().count(a) > 0);
        t.to_multiset_ensures();
        assert(t.contains(a));
        let i = choose|i: int| 0 <= i < t.len() && t[i] == a;
        let t0 = t.remove(i);
        to_multiset_remove(t, i);
        to_multiset_remove(s, s.len() - 1);
        assert(s.remove(s.len() - 1) =~= s0);
        assert(s0.to_multiset() =~= t0.to_multiset());
        lemma_same_elements_mapped(s0, t0, f);
        assert(s.map_values(f) =~= s0.map_values(f).push(f(a)));
        assert(t.map_values(f) =~= t0.map_values(f).insert(i, f(a)));
        s0.map_values(f).to_multiset_ensures();
        to_multiset_insert(t0.map_values(f), i, f(a));
    }
}

/// A vector that was sorted from one holding the unsorted crossings holds
/// the crossings in ascending order.
proof fn lemma_sorted_values(before: Seq<isize>, after: Seq<isize>)
    requires
        ascending(after),
        after.to_multiset() == before.to_multiset(),
    ensures
        values(after) == values(before).sort(),
{
    let leq = |x: int, y: int| x <= y;
    lemma_same_elements_mapped(after, before, |v: isize| v as int);
    values(before).lemma_sort_ensures();
    assert(sorted_by(values(after), leq));
    assert(total_ordering(leq));
    lemma_sorted_unique(values(after), values(before).sort(), leq);
}

/// Whether `edges` lists the edges of the polygon, one for each vertex.
pub open spec fn is_edge_list(edges: Seq<(isize, isize, isize, isize)>, vertices: Seq<Point>) -> bool {
    &&& edges.len() == vertices.len()
    &&& forall|k: int|
        0 <= k < edges.len() ==> (
        (#[trigger] edges[k]).0 as int,
        edges[k].1 as int,
        edges[k].2 as int,
        edges[k].3 as int,
    ) == edge_of(vertices, k)
}

/// Lists the edges of the polygon: from each vertex to the one that follows
/// it, and from the last back to the first.
fn edge_list(vertices: &[Point]) -> (edges: Vec<(isize, isize, isize, isize)>)
    requires
        vertices@.len() >= 1,
    ensures
        is_edge_list(edges@, vertices@),
{
    let n: usize = vertices.len();
    let mut edges: Vec<(isize, isize, isize, isize)> = Vec::new();
    let mut i: usize = 0;
    while i < n
        invariant
            i <= n,
            n == vertices@.len(),
            edges@.len() == i,
            forall|k: int|
                0 <= k < i ==> (
                (#[trigger] edges@[k]).0 as int,
                edges@[k].1 as int,
                edges@[k].2 as int,
                edges@[k].3 as int,
            ) == edge_of(vertices@, k),
        decreases n - i,
    {
        let next: usize = (i + 1) % n;
        let start: Point = vertices[i];
        let end: Point = vertices[next];
        edges.push((start.x, start.y, end.x, end.y));
        i += 1;
    }
    edges
}

/// The lowest and the highest `y` among the vertices.
fn vertical_extent(vertices: &[Point]) -> (extent: (isize, isize))
    requires
        vertices@.len() >= 1,
    ensures
        forall|k: int| 0 <= k < vertices@.len() ==> extent.0 <= (#[trigger] vertices@[k]).y <= extent.1,
        exists|k: int| 0 <= k < vertices@.len() && (#[trigger] vertices@[k]).y == extent.0,
        exists|k: int| 0 <= k < vertices@.len() && (#[trigger] vertices@[k]).y == extent.1,
{
    let n: usize = vertices.len();
    let mut min_y: isize = vertices[0].y;
    let mut max_y: isize = vertices[0].y;
    let mut i: usize = 1;
    while i < n
        invariant
            1 <= i <= n,
            n == vertices@.len(),
            forall|k: int| 0 <= k < i ==> min_y <= (#[trigger] vertices@[k]).y <= max_y,
            exists|k: int| 0 <= k < i && (#[trigger] vertices@[k]).y == min_y,
            exists|k: int| 0 <= k < i && (#[trigger] vertices@[k]).y == max_y,
        decreases n - i,
    {
        let y: isize = vertices[i].y;
        if y < min_y {
            min_y = y;
        }
        if y > max_y {
            max_y = y;
        }
        i += 1;
    }
    (min_y, max_y)
}

/// Collects, in the order of the edges, where the scanline at height `y`
/// meets the edges that it crosses.
fn scanline_crossings(
    edges: &Vec<(isize, isize, isize, isize)>,
    y: isize,
    Ghost(vertices): Ghost<Seq<Point>>,
) -> (intersections: Vec<isize>)
    requires
        is_edge_list(edges@, vertices),
    ensures
        values(intersections@) == crossings_of(vertices, y as int, vertices.len() as int),
{
    let mut intersections: Vec<isize> = Vec::new();
    let n: usize = edges.len();
    let mut i: usize = 0;
    proof {
        assert(values(intersections@) =~= crossings_of(vertices, y as int, 0));
    }
    while i < n
        invariant
            i <= n,
            n == edges@.len(),
            is_edge_list(edges@, vertices),
            values(intersections@) == crossings_of(vertices, y as int, i as int),
        decreases n - i,
    {
        let (x1, y1, x2, y2) = edges[i];
        let ghost found = intersections@;
        if (y1 <= y && y < y2) || (y2 <= y && y < y1) {
            let x: isize = intersection_x(x1, y1, x2, y2, y);
            intersections.push(x);
            proof {
                assert(values(intersections@) =~= values(found).push(x as int));
            }
        }
        proof {
            assert(edges@[i as int] == (x1, y1, x2, y2));
        }
        i += 1;
    }
    intersections
}

/// Draws the spans of one scanline: a horizontal line in the current color
/// between each pair of consecutive crossings.
fn fill_scanline(framebuffer: &mut Framebuffer, sorted: &Vec<isize>, y: isize)
    requires
        old(framebuffer).wf(),
        ascending(sorted@),
    ensures
        final(framebuffer).wf(),
        final(framebuffer)@ == old(framebuffer)@.paint(
            row_spans(values(sorted@), y as int, sorted@.len() as int),
            old(framebuffer)@.current_color,
        ),
{
    let ghost base = framebuffer@;
    let ghost color = framebuffer@.current_color;
    let ghost s = values(sorted@);
    let n: usize = sorted.len();
    let mut i: usize = 0;
    let ghost mut k: int = 0;
    proof {
        base.lemma_paint_nothing(color);
        assert(row_spans(s, y as int, 0) =~= Set::empty());
    }
    while n - i >= 2
        invariant
            i <= n,
            n == sorted@.len(),
            i == 2 * k,
            s == values(sorted@),
            ascending(sorted@),
            base.wf(),
            color == base.current_color,
            framebuffer.wf(),
            framebuffer@ == base.paint(row_spans(s, y as int, k), color),
        decreases n - i,
    {
        let left: isize = sorted[i];
        let right: isize = sorted[i + 1];
        framebuffer.Line(left, y, right, y);
        proof {
            lemma_horizontal_line(left as int, right as int, y as int);
            base.lemma_paint_twice(
                row_spans(s, y as int, k),
                line_points(left as int, y as int, right as int, y as int),
                color,
            );
            assert forall|p: (int, int)|
                row_spans(s, y as int, k).union(
                    line_points(left as int, y as int, right as int, y as int),
                ).contains(p) <==> row_spans(s, y as int, k + 1).contains(p) by {
                if p.1 == y && left <= p.0 <= right {
                    assert(in_span(s, k, p.0));
                }
                if row_spans(s, y as int, k + 1).contains(p) && !row_spans(s, y as int, k).contains(
                    p,
                ) {
                    let w = choose|w: int| w < k + 1 && #[trigger] in_span(s, w, p.0);
                    assert(w == k);
                }
            }
            assert(row_spans(s, y as int, k).union(
                line_points(left as int, y as int, right as int, y as int),
            ) =~= row_spans(s, y as int, k + 1));
            k = k + 1;
        }
        i += 2;
    }
    proof {
        assert(row_spans(s, y as int, k) =~= row_spans(s, y as int, n as int));
    }
}

/// A scanline below the lowest vertex, or at or above the highest, crosses
/// no edge.
proof fn lemma_no_crossings_outside(vertices: Seq<Point>, low: int, high: int, y: int, n: int)
    requires
        forall|k: int| 0 <= k < vertices.len() ==> low <= (#[trigger] vertices[k]).y <= high,
        y < low || high <= y,
        0 <= n <= vertices.len(),
    ensures
        crossings_of(vertices, y, n).len() == 0,
    decreases n,
{
    if n > 0 {
        lemma_no_crossings_outside(vertices, low, high, y, n - 1);
        let next = following(vertices.len() as int, n - 1);
        assert(0 <= next < vertices.len());
        assert(low <= vertices[n - 1].y <= high);
        assert(low <= vertices[next].y <= high);
    }
}

/// The interior of a polygon lies on the scanlines from its lowest vertex
/// up to, not including, its highest.
proof fn lemma_fill_rows_complete(vertices: Seq<Point>, low: int, high: int)
    requires
        forall|k: int| 0 <= k < vertices.len() ==> low <= (#[trigger] vertices[k]).y <= high,
    ensures
        fill_rows(vertices, low, high + 1) == fill_region(vertices),
{
    assert forall|p: (int, int)| fill_region(vertices).contains(p) implies low <= p.1 < high
        + 1 by {
        if p.1 < low || high <= p.1 {
            let unsorted = crossings_of(vertices, p.1, vertices.len() as int);
            lemma_no_crossings_outside(vertices, low, high, p.1, vertices.len() as int);
            unsorted.lemma_sort_ensures();
            to_multiset_len(unsorted);
            to_multiset_len(unsorted.sort());
            let w = choose|w: int|
                w < crossings(vertices, p.1).len() && #[trigger] in_span(
                    crossings(vertices, p.1),
                    w,
                    p.0,
                );
            assert(false);
        }
    }
    assert(fill_rows(vertices, low, high + 1) =~= fill_region(vertices));
}

/// Fills the interior of a polygon with `fill_color`, which becomes the
/// current color. With fewer than three vertices nothing is drawn and
/// nothing changes.
pub fn fill_polygon(framebuffer: &mut Framebuffer, vertices: &[Point], fill_color: u32) -> (done:
    Result<(), PolygonError>)
    requires
        old(framebuffer).wf(),
    ensures
        final(framebuffer).wf(),
        vertices@.len() < 3 ==> done == Err::<(), PolygonError>(PolygonError::TooFewVertices)
            && final(framebuffer)@ == old(framebuffer)@,
        vertices@.len() >= 3 ==> done == Ok::<(), PolygonError>(()) && final(framebuffer)@ == old(
            framebuffer,
        )@.with_current_color(fill_color).paint(fill_region(vertices@), fill_color),
{
    if vertices.len() < 3 {
        return Err(PolygonError::TooFewVertices);
    }
    let edges: Vec<(isize, isize, isize, isize)> = edge_list(vertices);
    let (min_y, max_y) = vertical_extent(vertices);

    framebuffer.set_current_color(fill_color);

    let ghost base = framebuffer@;
    proof {
        base.lemma_paint_nothing(fill_color);
        assert(fill_rows(vertices@, min_y as int, min_y as int) =~= Set::empty());
    }
    let mut y: isize = min_y;
    loop
        invariant_except_break
            framebuffer@ == base.paint(fill_rows(vertices@, min_y as int, y as int), fill_color),
        invariant
            min_y <= y <= max_y,
            is_edge_list(edges@, vertices@),
            base.wf(),
            base.current_color == fill_color,
            framebuffer.wf(),
        ensures
            framebuffer@ == base.paint(
                fill_rows(vertices@, min_y as int, max_y as int + 1),
                fill_color,
            ),
        decreases max_y - y,
    {
        let mut intersections: Vec<isize> = scanline_crossings(&edges, y, Ghost(vertices@));
        let ghost unsorted = intersections@;
        sort_ascending(&mut intersections);
        proof {
            lemma_sorted_values(unsorted, intersections@);
        }
        fill_scanline(framebuffer, &intersections, y);
        proof {
            let row = row_spans(values(intersections@), y as int, intersections@.len() as int);
            base.lemma_paint_twice(fill_rows(vertices@, min_y as int, y as int), row, fill_color);
            assert(fill_rows(vertices@, min_y as int, y as int).union(row) =~= fill_rows(
                vertices@,
                min_y as int,
                y as int + 1,
            ));
        }
        if y == max_y {
            break ;
        }
        y = y + 1;
    }
    proof {
        lemma_fill_rows_complete(vertices@, min_y as int, max_y as int);
    }
    Ok(())
}

/// The rectangle with the given sides, as a polygon: its corners in the
/// order lower left, lower right, upper right, upper left.
pub open spec fn rectangle(left: isize, low: isize, right: isize, high: isize) -> Seq<Point> {
    seq![
        Point { x: left, y: low },
        Point { x: right, y: low },
        Point { x: right, y: high },
        Point { x: left, y: high },
    ]
}

/// Two numbers in ascending order.
proof fn lemma_sort_two(first: int, second: int)
    ensures
        seq![first, second].sort() == if first <= second {
            seq![first, second]
        } else {
            seq![second, first]
        },
{
    let leq = |x: int, y: int| x <= y;
    let unsorted = seq![first, second];
    let sorted = if first <= second {
        seq![first, second]
    } else {
        seq![second, first]
    };
    unsorted.lemma_sort_ensures();
    assert(sorted_by(sorted, leq));
    assert(total_ordering(leq));
    if first > second {
        lemma_seq_union_to_multiset_commutative(seq![first], seq![second]);
        assert(seq![first] + seq![second] =~= unsorted);
        assert(seq![second] + seq![first] =~= sorted);
    }
    lemma_sorted_unique(unsorted.sort(), sorted, leq);
}

/// The interior of an axis-aligned rectangle holds the pixels from its left
/// side to its right side, both included, on the rows from its lower side up
/// to, not including, its upper side.
pub proof fn lemma_fill_rectangle(left: isize, low: isize, right: isize, high: isize)
    requires
        left <= right,
        low <= high,
    ensures
        fill_region(rectangle(left, low, right, high)) == Set::new(
            |p: (int, int)| left <= p.0 <= right && low <= p.1 < high,
        ),
{
    let corners = rectangle(left, low, right, high);
    let inside = Set::new(|p: (int, int)| left <= p.0 <= right && low <= p.1 < high);
    assert forall|p: (int, int)| fill_region(corners).contains(p) <==> inside.contains(p) by {
        let y = p.1;
        let unsorted = crossings_of(corners, y, 4);
        reveal_with_fuel(crossings_of, 5);
        assert(following(4, 0) == 1 && following(4, 1) == 2 && following(4, 2) == 3 && following(
            4,
            3,
        ) == 0);
        assert((y - low) * 0 == 0 && (y - high) * 0 == 0) by (nonlinear_arith);
        if low <= y < high {
            assert(truncated_quotient(0, high - low) == 0 && truncated_quotient(0, low - high)
                == 0) by (nonlinear_arith)
                requires
                    low < high,
            ;
            assert(unsorted =~= seq![right as int, left as int]);
            lemma_sort_two(right as int, left as int);
            let sorted = crossings(corners, y);
            assert(sorted == seq![left as int, right as int]);
            if inside.contains(p) {
                assert(in_span(sorted, 0, p.0));
            }
            if fill_region(corners).contains(p) {
                let k = choose|k: int| k < sorted.len() && #[trigger] in_span(sorted, k, p.0);
                assert(k == 0);
            }
        } else {
            assert(unsorted =~= Seq::<int>::empty());
            unsorted.lemma_sort_ensures();
            to_multiset_len(unsorted);
            to_multiset_len(unsorted.sort());
            if fill_region(corners).contains(p) {
                let sorted = crossings(corners, y);
                let k = choose|k: int| k < sorted.len() && #[trigger] in_span(sorted, k, p.0);
                assert(false);
            }
        }
    }
    assert(fill_region(corners) =~= inside);
}

} // verus!
