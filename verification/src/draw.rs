//! The pixel grid and the scan-line fill of polygons into it.

use vstd::prelude::*;
use crate::frame::{cells, frame, push_cell};
use crate::shading::{shade, shaded};
use crate::sorting::{
    as_indices, is_paint_order, lemma_paint_order_unique, lemma_sort_is_ascending, paint_order,
    sort_ascending,
};
use crate::utils::{
    as_ints, edges_of, intersections, lemma_rows_beyond_vertices_are_empty, polygon_edges,
    row_crossings, row_range, Point,
};

verus! {

/// A colour: red, green and blue channels.
pub type Pixel = (u8, u8, u8);

/// The largest number of terminal columns or rows a grid is built for.
pub const MAX_CELLS: usize = 0xFFFF;

/// Column `x` lies in one of the spans `[s[0], s[1]]`, `[s[2], s[3]]`, ...
/// that the elements of `s` delimit two at a time. A last element without a
/// partner delimits nothing.
pub open spec fn in_spans(s: Seq<int>, x: int) -> bool {
    in_leading_spans(s, s.len() as int, x)
}

/// Column `x` lies in one of the spans that the first `n` elements of `s`
/// delimit two at a time.
pub open spec fn in_leading_spans(s: Seq<int>, n: int, x: int) -> bool {
    exists|k: int| 0 <= k && 2 * k + 1 < n && #[trigger] s[2 * k] <= x <= s[2 * k + 1]
}

/// Two more elements delimit one more span.
proof fn lemma_next_span(s: Seq<int>, n: int, x: int)
    requires
        0 <= n,
        n % 2 == 0,
    ensures
        in_leading_spans(s, n + 2, x) <==> in_leading_spans(s, n, x) || s[n] <= x <= s[n + 1],
        in_leading_spans(s, n + 1, x) <==> in_leading_spans(s, n, x),
{
    let m = n / 2;
    if in_leading_spans(s, n + 2, x) {
        let k = choose|k: int| 0 <= k && 2 * k + 1 < n + 2 && #[trigger] s[2 * k] <= x <= s[2 * k + 1];
        if 2 * k + 1 >= n {
            assert(k == m);
        }
    }
    if s[n] <= x <= s[n + 1] {
        assert(s[2 * m] <= x <= s[2 * m + 1]);
    }
    if in_leading_spans(s, n + 1, x) {
        let k = choose|k: int| 0 <= k && 2 * k + 1 < n + 1 && #[trigger] s[2 * k] <= x <= s[2 * k + 1];
        assert(2 * k + 1 < n);
    }
}

/// The scan-line fill paints the pixel `(x, y)` of the polygon with the
/// vertex loop `points`: in the ascending sequence of the columns at which
/// the polygon's edges cross row `y`, `x` lies in one of the spans.
pub open spec fn covered(points: Seq<Point>, x: int, y: int) -> bool {
    in_spans(row_crossings(y, polygon_edges(points)).sort(), x)
}

/// Nothing is painted on a row that no edge crosses.
pub proof fn lemma_empty_row_uncovered(points: Seq<Point>, x: int, y: int)
    requires
        row_crossings(y, polygon_edges(points)) == Seq::<int>::empty(),
    ensures
        !covered(points, x, y),
{
    lemma_sort_is_ascending(row_crossings(y, polygon_edges(points)));
}

/// A grid with every covered pixel of the polygon set to `colour` and every
/// other pixel as it was.
pub open spec fn filled(grid: Seq<Seq<Pixel>>, points: Seq<Point>, colour: Pixel) -> Seq<
    Seq<Pixel>,
> {
    Seq::new(
        grid.len(),
        |y: int|
            Seq::new(
                grid[y].len(),
                |x: int|
                    if covered(points, x, y) {
                        colour
                    } else {
                        grid[y][x]
                    },
            ),
    )
}

/// A face of a solid, projected onto the pixel plane.
pub struct Face {
    /// The vertex loop of the face.
    pub outline: Vec<(i32, i32)>,
    /// The depth by which faces are ordered: the larger, the earlier the
    /// face is painted.
    pub depth: i32,
    /// The intensity of the light on the face, before it is capped.
    pub intensity: i32,
}

/// The depths of the faces, in the order of the faces.
pub open spec fn face_depths(faces: Seq<Face>) -> Seq<int> {
    Seq::new(faces.len(), |i: int| faces[i].depth as int)
}

/// The grid after the faces listed in `order` have been filled into it one
/// after the other, each in its shaded colour.
pub open spec fn painted(
    grid: Seq<Seq<Pixel>>,
    faces: Seq<Face>,
    order: Seq<int>,
    colour: Pixel,
    noshade: bool,
) -> Seq<Seq<Pixel>>
    decreases order.len(),
{
    if order.len() == 0 {
        grid
    } else {
        let face = faces[order.last()];
        filled(
            painted(grid, faces, order.drop_last(), colour, noshade),
            face.outline@,
            shaded(colour, face.intensity as int, noshade),
        )
    }
}

/// A row of `width` black pixels.
pub open spec fn blank_row(width: nat) -> Seq<Pixel> {
    Seq::new(width, |x: int| (0u8, 0u8, 0u8))
}

/// A grid of `height` rows of `width` black pixels.
pub open spec fn blank(width: nat, height: nat) -> Seq<Seq<Pixel>> {
    Seq::new(height, |y: int| blank_row(width))
}

/// Row `row` of the grid with the columns from `start` to `end` (both
/// included) set to `colour`.
pub open spec fn with_span(row: Seq<Pixel>, start: int, end: int, colour: Pixel) -> Seq<Pixel> {
    Seq::new(
        row.len(),
        |x: int|
            if start <= x <= end {
                colour
            } else {
                row[x]
            },
    )
}

/// A row with the columns in the spans of `s` set to `colour`.
pub open spec fn with_spans(row: Seq<Pixel>, s: Seq<int>, colour: Pixel) -> Seq<Pixel> {
    Seq::new(
        row.len(),
        |x: int|
            if in_spans(s, x) {
                colour
            } else {
                row[x]
            },
    )
}

/// The pixel grid of a terminal: one column per terminal column and two
/// rows per terminal row.
pub struct Screen {
    pxs: Vec<Vec<(u8, u8, u8)>>,
    width: usize,
}

impl View for Screen {
    type V = Seq<Seq<Pixel>>;

    /// The rows of the grid from top to bottom, each from left to right.
    closed spec fn view(&self) -> Seq<Seq<Pixel>> {
        Seq::new(self.pxs@.len(), |y: int| self.pxs@[y]@)
    }
}

impl Screen {
    /// The number of pixels in every row.
    pub closed spec fn spec_width(&self) -> nat {
        self.width as nat
    }

    /// The number of rows.
    pub open spec fn spec_height(&self) -> nat {
        self@.len()
    }

    /// The grid is rectangular and no larger than a terminal can be.
    pub open spec fn wf(&self) -> bool {
        &&& self.spec_width() <= MAX_CELLS
        &&& self.spec_height() <= 2 * MAX_CELLS
        &&& forall|y: int|
            0 <= y < self.spec_height() ==> (#[trigger] self@[y]).len() == self.spec_width()
    }

    /// Well-formedness, read off the stored rows.
    spec fn rows_ok(&self) -> bool {
        &&& self.width <= MAX_CELLS
        &&& self.pxs@.len() <= 2 * MAX_CELLS
        &&& forall|y: int| 0 <= y < self.pxs@.len() ==> (#[trigger] self.pxs@[y])@.len() == self.width
    }

    /// The view has the stored rows, so both readings of well-formedness
    /// agree.
    proof fn lemma_rows(&self)
        ensures
            self.wf() == self.rows_ok(),
            self@.len() == self.pxs@.len(),
            forall|y: int| 0 <= y < self.pxs@.len() ==> self@[y] == (#[trigger] self.pxs@[y])@,
    {
        if self.wf() {
            assert forall|y: int| 0 <= y < self.pxs@.len() implies (#[trigger] self.pxs@[y])@.len()
                == self.width by {
                assert(self@[y].len() == self.spec_width());
            }
        }
    }

    /// A black grid for a terminal of `columns` by `rows` cells.
    pub fn new(columns: u16, rows: u16) -> (screen: Screen)
        ensures
            screen.wf(),
            screen.spec_width() == columns,
            screen.spec_height() == 2 * rows,
            screen@ == blank(columns as nat, 2 * rows as nat),
    {
        let width = columns as usize;
        let height = 2 * (rows as usize);
        let mut screen = Screen { pxs: Vec::new(), width };
        screen.reset(height);
        screen
    }

    /// Replaces the rows by `height` black rows of the grid's width.
    fn reset(&mut self, height: usize)
        requires
            old(self).width <= MAX_CELLS,
            height <= 2 * MAX_CELLS,
        ensures
            final(self).wf(),
            final(self).width == old(self).width,
            final(self)@ == blank(old(self).width as nat, height as nat),
    {
        let width = self.width;
        let mut grid: Vec<Vec<(u8, u8, u8)>> = Vec::new();
        let mut y: usize = 0;
        while y < height
            invariant
                y <= height,
                grid@.len() == y,
                forall|k: int| 0 <= k < y ==> (#[trigger] grid@[k])@ == blank_row(width as nat),
            decreases height - y,
        {
            let mut row: Vec<(u8, u8, u8)> = Vec::new();
            let mut x: usize = 0;
            while x < width
                invariant
                    x <= width,
                    row@.len() == x,
                    forall|k: int| 0 <= k < x ==> #[trigger] row@[k] == (0u8, 0u8, 0u8),
                decreases width - x,
            {
                row.push((0, 0, 0));
                x += 1;
            }
            assert(row@ == blank_row(width as nat));
            grid.push(row);
            y += 1;
        }
        self.pxs = grid;
        assert(self@ == blank(width as nat, height as nat));
    }

    /// The number of pixels in every row.
    pub fn width(&self) -> (w: usize)
        ensures
            w == self.spec_width(),
    {
        self.width
    }

    /// The number of rows.
    pub fn height(&self) -> (h: usize)
        ensures
            h == self.spec_height(),
    {
        self.pxs.len()
    }

    /// The bytes that show the grid on a terminal: for each pair of pixel
    /// rows `2 i` and `2 i + 1` and each column one cell, an upper half
    /// block with the upper pixel as foreground and the lower pixel as
    /// background colour. Rows follow each other without a separator.
    pub fn write(&self) -> (out: Vec<u8>)
        requires
            self.wf(),
        ensures
            out@ == frame(self@, self.spec_width() as int, (self.spec_height() / 2) as int),
    {
        proof {
            self.lemma_rows();
        }
        let rows = self.pxs.len() / 2;
        let width = self.width;
        let mut out: Vec<u8> = Vec::new();
        let mut i: usize = 0;
        while i < rows
            invariant
                i <= rows,
                rows == self.pxs@.len() / 2,
                width == self.width,
                self.rows_ok(),
                out@ == frame(self@, width as int, i as int),
            decreases rows - i,
        {
            let ghost start = out@;
            let upper = &self.pxs[2 * i];
            let lower = &self.pxs[2 * i + 1];
            let mut col: usize = 0;
            while col < width
                invariant
                    col <= width,
                    upper@.len() == width,
                    lower@.len() == width,
                    out@ == start + cells(upper@, lower@, col as int),
                decreases width - col,
            {
                push_cell(&mut out, upper[col], lower[col]);
                assert(out@ =~= start + cells(upper@, lower@, col + 1));
                col += 1;
            }
            assert(self@[2 * i] == upper@ && self@[2 * i + 1] == lower@);
            i += 1;
        }
        out
    }

    /// Sets every pixel to black; the dimensions stay.
    pub fn clear(&mut self)
        requires
            old(self).wf(),
        ensures
            final(self).wf(),
            final(self).spec_width() == old(self).spec_width(),
            final(self).spec_height() == old(self).spec_height(),
            final(self)@ == blank(old(self).spec_width(), old(self).spec_height()),
            forall|x: int, y: int|
                0 <= y < old(self).spec_height() && 0 <= x < old(self).spec_width()
                    ==> final(self)@[y][x] == (0u8, 0u8, 0u8),
    {
        let height = self.pxs.len();
        self.reset(height);
    }

    /// The pixel in column `x` of row `y`, if the grid has one there.
    pub fn pixel(&self, x: usize, y: usize) -> (p: Option<(u8, u8, u8)>)
        requires
            self.wf(),
        ensures
            p == (if y < self.spec_height() && x < self.spec_width() {
                Some(self@[y as int][x as int])
            } else {
                None
            }),
    {
        proof {
            self.lemma_rows();
        }
        if y < self.pxs.len() && x < self.width {
            Some(self.pxs[y][x])
        } else {
            None
        }
    }

    /// Sets the pixels of row `row` from column `start` to column `end`, both
    /// included, as far as they lie inside the grid.
    fn fill_span(&mut self, row: usize, start: i32, end: i32, colour: (u8, u8, u8))
        requires
            old(self).wf(),
            row < old(self).spec_height(),
        ensures
            final(self).wf(),
            final(self).spec_width() == old(self).spec_width(),
            final(self)@ == old(self)@.update(
                row as int,
                with_span(old(self)@[row as int], start as int, end as int, colour),
            ),
    {
        proof {
            self.lemma_rows();
        }
        let width = self.width;
        if end < 0 || width == 0 || start > end {
            assert(self@ =~~= old(self)@.update(
                row as int,
                with_span(old(self)@[row as int], start as int, end as int, colour),
            ));
            return ;
        }
        let first: usize = if start < 0 {
            0
        } else {
            start as usize
        };
        let stop: usize = if (end as usize) < width - 1 {
            end as usize + 1
        } else {
            width
        };
        let mut x: usize = first;
        while x < stop
            invariant
                first <= x,
                x <= stop || x == first,
                row < old(self).pxs@.len(),
                stop <= width,
                width == self.width,
                self.rows_ok(),
                row < self.pxs@.len(),
                self.pxs@.len() == old(self).pxs@.len(),
                forall|k: int| 0 <= k < self.pxs@.len() && k != row ==> self.pxs@[k] == old(self).pxs@[k],
                forall|k: int|
                    0 <= k < width ==> #[trigger] self.pxs@[row as int]@[k] == (if first <= k < x {
                        colour
                    } else {
                        old(self).pxs@[row as int]@[k]
                    }),
            decreases stop - x,
        {
            self.pxs[row][x] = colour;
            x += 1;
        }
        proof {
            self.lemma_rows();
        }
        assert(self@ =~~= old(self)@.update(
            row as int,
            with_span(old(self)@[row as int], start as int, end as int, colour),
        ));
    }

    /// Sets the pixels of row `row` whose column lies in one of the spans that
    /// the elements of `xs` delimit two at a time: from `xs[0]` to `xs[1]`,
    /// from `xs[2]` to `xs[3]` and so on, both ends included. A last element
    /// without a partner is dropped; what lies outside the grid is dropped.
    pub fn fill_row(&mut self, row: usize, xs: &Vec<i32>, colour: (u8, u8, u8))
        requires
            old(self).wf(),
            row < old(self).spec_height(),
        ensures
            final(self).wf(),
            final(self).spec_width() == old(self).spec_width(),
            final(self)@ == old(self)@.update(
                row as int,
                with_spans(old(self)@[row as int], as_ints(xs@), colour),
            ),
    {
        let ghost s = as_ints(xs@);
        let ghost start_row = self@[row as int];
        let mut k: usize = 0;
        assert(self@ =~~= old(self)@.update(
            row as int,
            Seq::new(
                start_row.len(),
                |x: int|
                    if in_leading_spans(s, 0, x) {
                        colour
                    } else {
                        start_row[x]
                    },
            ),
        ));
        while xs.len() - k >= 2
            invariant
                k <= xs.len(),
                k % 2 == 0,
                s == as_ints(xs@),
                self.wf(),
                self.spec_width() == old(self).spec_width(),
                row < old(self).spec_height(),
                start_row == old(self)@[row as int],
                self@ == old(self)@.update(
                    row as int,
                    Seq::new(
                        start_row.len(),
                        |x: int|
                            if in_leading_spans(s, k as int, x) {
                                colour
                            } else {
                                start_row[x]
                            },
                    ),
                ),
            decreases xs.len() - k,
        {
            let ghost before = self@;
            self.fill_span(row, xs[k], xs[k + 1], colour);
            proof {
                assert forall|x: int|
                    in_leading_spans(s, k + 2, x) <==> in_leading_spans(s, k as int, x) || s[k as int]
                        <= x <= s[k + 1] by {
                    lemma_next_span(s, k as int, x);
                }
                assert(s[k as int] == xs@[k as int] && s[k + 1] == xs@[k + 1]);
                let next_row = self@[row as int];
                assert(next_row == with_span(before[row as int], s[k as int], s[k + 1], colour));
                assert(next_row.len() == start_row.len());
                assert forall|x: int| 0 <= x < next_row.len() implies next_row[x] == (if in_leading_spans(
                    s,
                    k + 2,
                    x,
                ) {
                    colour
                } else {
                    start_row[x]
                }) by {
                    lemma_next_span(s, k as int, x);
                }
                assert(self@ =~~= old(self)@.update(
                    row as int,
                    Seq::new(
                        start_row.len(),
                        |x: int|
                            if in_leading_spans(s, k + 2, x) {
                                colour
                            } else {
                                start_row[x]
                            },
                    ),
                ));
            }
            k += 2;
        }
        proof {
            assert forall|x: int| in_leading_spans(s, k as int, x) <==> in_spans(s, x) by {
                if k < xs.len() {
                    lemma_next_span(s, k as int, x);
                }
            }
            assert(self@ =~~= old(self)@.update(
                row as int,
                with_spans(old(self)@[row as int], as_ints(xs@), colour),
            ));
        }
    }

    /// Scan-line fill: paints `colour` on every pixel of the grid that the
    /// polygon with the vertex loop `points` covers. The loop is closed from
    /// its last vertex to its first; what lies outside the grid is dropped.
    pub fn polygon(&mut self, points: Vec<(i32, i32)>, colour: (u8, u8, u8))
        requires
            old(self).wf(),
        ensures
            final(self).wf(),
            final(self).spec_width() == old(self).spec_width(),
            final(self).spec_height() == old(self).spec_height(),
            final(self)@ == filled(old(self)@, points@, colour),
    {
        self.fill(&points, colour);
    }

    /// Paints the projected faces of a solid, the deepest first: faces are
    /// taken from the largest depth to the smallest, faces of equal depth
    /// from the last to the first, and each is filled in the base colour at
    /// the face's brightness (at full brightness when `noshade` is set).
    pub fn polyhedron(&mut self, faces: Vec<Face>, colour: (u8, u8, u8), noshade: bool)
        requires
            old(self).wf(),
        ensures
            final(self).wf(),
            final(self).spec_width() == old(self).spec_width(),
            final(self).spec_height() == old(self).spec_height(),
            forall|order: Seq<int>| #[trigger]
                is_paint_order(order, face_depths(faces@)) ==> final(self)@ == painted(
                    old(self)@,
                    faces@,
                    order,
                    colour,
                    noshade,
                ),
            faces@.len() == 0 ==> final(self)@ == old(self)@,
    {
        let mut depths: Vec<i32> = Vec::new();
        let mut i: usize = 0;
        while i < faces.len()
            invariant
                i <= faces.len(),
                depths@.len() == i,
                forall|k: int| 0 <= k < i ==> #[trigger] depths@[k] == faces@[k].depth,
            decreases faces.len() - i,
        {
            depths.push(faces[i].depth);
            i += 1;
        }
        assert(as_ints(depths@) =~= face_depths(faces@));
        let order = paint_order(&depths);
        let ghost o = as_indices(order@);
        let mut k: usize = 0;
        assert(o.take(0) =~= Seq::empty());
        while k < order.len()
            invariant
                k <= order.len(),
                o == as_indices(order@),
                is_paint_order(o, face_depths(faces@)),
                self.wf(),
                self.spec_width() == old(self).spec_width(),
                self.spec_height() == old(self).spec_height(),
                self@ == painted(old(self)@, faces@, o.take(k as int), colour, noshade),
            decreases order.len() - k,
        {
            let idx = order[k];
            assert(0 <= o[k as int] < faces.len() && o[k as int] == idx);
            let face = &faces[idx];
            let c = shade(colour, face.intensity, noshade);
            self.fill(&face.outline, c);
            proof {
                assert(o.take(k + 1).drop_last() =~= o.take(k as int));
                assert(o.take(k + 1).last() == idx);
            }
            k += 1;
        }
        proof {
            assert(o.take(order.len() as int) =~= o);
            assert forall|other: Seq<int>| #[trigger]
                is_paint_order(other, face_depths(faces@)) implies self@ == painted(
                old(self)@,
                faces@,
                other,
                colour,
                noshade,
            ) by {
                lemma_paint_order_unique(other, o, face_depths(faces@));
            }
        }
    }

    /// The scan-line fill of `polygon`, on a borrowed vertex loop.
    fn fill(&mut self, points: &Vec<(i32, i32)>, colour: (u8, u8, u8))
        requires
            old(self).wf(),
        ensures
            final(self).wf(),
            final(self).spec_width() == old(self).spec_width(),
            final(self).spec_height() == old(self).spec_height(),
            final(self)@ == filled(old(self)@, points@, colour),
    {
        let height = self.pxs.len();
        if points.len() == 0 || height == 0 {
            proof {
                if points.len() == 0 {
                    assert forall|x: int, y: int| !covered(points@, x, y) by {
                        assert(polygon_edges(points@) =~= Seq::empty());
                        lemma_empty_row_uncovered(points@, x, y);
                    }
                }
                assert(self@ =~~= filled(old(self)@, points@, colour));
            }
            return ;
        }
        let (ymin, ymax) = row_range(points);
        let edges = edges_of(points);
        if ymax < 0 {
            proof {
                assert forall|x: int, y: int| 0 <= y implies !covered(points@, x, y) by {
                    lemma_rows_beyond_vertices_are_empty(points@, ymin as int, ymax as int, y);
                    lemma_empty_row_uncovered(points@, x, y);
                }
                assert(self@ =~~= filled(old(self)@, points@, colour));
            }
            return ;
        }
        let first: usize = if ymin < 0 {
            0
        } else {
            ymin as usize
        };
        let stop: usize = if (ymax as usize) < height - 1 {
            ymax as usize + 1
        } else {
            height
        };
        let mut row: usize = first;
        while row < stop
            invariant
                first <= row,
                row <= stop || row == first,
                stop <= height,
                height == self.spec_height(),
                self.wf(),
                self.spec_width() == old(self).spec_width(),
                self.spec_height() == old(self).spec_height(),
                edges@ == polygon_edges(points@),
                forall|y: int|
                    0 <= y < height ==> #[trigger] self@[y] == (if first <= y < row {
                        filled(old(self)@, points@, colour)[y]
                    } else {
                        old(self)@[y]
                    }),
            decreases stop - row,
        {
            let xs = intersections(row as i32, &edges);
            let sorted = sort_ascending(&xs);
            self.fill_row(row, &sorted, colour);
            proof {
                assert(as_ints(sorted@) == row_crossings(row as int, polygon_edges(points@)).sort());
                assert(self@[row as int] =~= filled(old(self)@, points@, colour)[row as int]);
            }
            row += 1;
        }
        proof {
            assert forall|y: int| 0 <= y < height implies #[trigger] self@[y] == filled(
                old(self)@,
                points@,
                colour,
            )[y] by {
                if !(first <= y < stop) {
                    assert forall|x: int| !covered(points@, x, y) by {
                        lemma_rows_beyond_vertices_are_empty(points@, ymin as int, ymax as int, y);
                        lemma_empty_row_uncovered(points@, x, y);
                    }
                    assert(self@[y] =~= filled(old(self)@, points@, colour)[y]);
                }
            }
            assert(self@ =~~= filled(old(self)@, points@, colour));
        }
    }
}

} // verus!
