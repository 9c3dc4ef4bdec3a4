//! Rectangles on the screen image and the rules by which the scan turns
//! the rows and columns it detects into the cells of a grid or a daemon.

use vstd::prelude::*;

verus! {

/// A rectangle of the screen image, in pixels.
#[derive(Debug, Clone, Copy, PartialEq, Eq, Structural)]
pub struct Rect {
    pub x: i32,
    pub y: i32,
    pub width: i32,
    pub height: i32,
}

/// The rows and columns found in a part of the screen and the rectangle of
/// each cell, row after row.
pub struct CellScanInfo {
    pub rows: u32,
    pub cols: u32,
    pub cells: Vec<Rect>,
}

/// The message of a count that does not fit the type it is meant for.
pub open spec fn out_of_range_message() -> Seq<char> {
    "out of range integral type conversion attempted"@
}

/// The cell where column `col` crosses row `row`: the column's horizontal
/// extent and the row's vertical one.
pub open spec fn crossing(row: Rect, col: Rect) -> Rect {
    Rect { x: col.x, y: row.y, width: col.width, height: row.height }
}

/// Whether `rect` covers more than `threshold` pixels.
pub open spec fn is_large(rect: Rect, threshold: i32) -> bool {
    rect.width * rect.height > threshold
}

/// The edge by which rectangles are put in order.
#[derive(Debug, Clone, Copy, PartialEq, Eq, Structural)]
pub enum Edge {
    /// The left edge, `x`.
    Left,
    /// The upper edge, `y`.
    Top,
}

/// The coordinate of the given edge of `rect`.
pub open spec fn edge_of(rect: Rect, edge: Edge) -> i32 {
    match edge {
        Edge::Left => rect.x,
        Edge::Top => rect.y,
    }
}

/// The rectangles are in ascending order of the given edge.
pub open spec fn ordered_by(rects: Seq<Rect>, edge: Edge) -> bool {
    forall|i: int, j: int|
        0 <= i <= j < rects.len() ==> edge_of(rects[i], edge) <= edge_of(rects[j], edge)
}

/// The coordinate of the given edge of `rect`.
fn edge_at(rect: &Rect, by: Edge) -> (at: i32)
    ensures
        at == edge_of(*rect, by),
{
    match by {
        Edge::Left => rect.x,
        Edge::Top => rect.y,
    }
}

/// The place at which `rect` goes into the first `k` of `sorted`: behind
/// the last of them whose edge is not beyond its own.
pub open spec fn place_of(sorted: Seq<Rect>, rect: Rect, by: Edge, k: int) -> int
    decreases k,
{
    if k <= 0 {
        0
    } else if edge_of(sorted[k - 1], by) > edge_of(rect, by) {
        place_of(sorted, rect, by, k - 1)
    } else {
        k
    }
}

/// The first `k` of `rects` in ascending order of the given edge;
/// rectangles with the same edge stay in the order in which they came.
pub open spec fn in_order_upto(rects: Seq<Rect>, by: Edge, k: int) -> Seq<Rect>
    decreases k,
{
    if k <= 0 {
        Seq::empty()
    } else {
        let before = in_order_upto(rects, by, k - 1);
        before.insert(place_of(before, rects[k - 1], by, before.len() as int), rects[k - 1])
    }
}

/// `rects` in ascending order of the given edge; rectangles with the same
/// edge stay in the order in which they came.
pub open spec fn in_order(rects: Seq<Rect>, by: Edge) -> Seq<Rect> {
    in_order_upto(rects, by, rects.len() as int)
}

/// The place found for a rectangle lies behind every rectangle whose edge
/// is not beyond its own and before every one whose edge is.
proof fn lemma_place(sorted: Seq<Rect>, rect: Rect, by: Edge, k: int)
    requires
        0 <= k <= sorted.len(),
        ordered_by(sorted, by),
    ensures
        0 <= place_of(sorted, rect, by, k) <= k,
        forall|j: int|
            place_of(sorted, rect, by, k) <= j < k ==> edge_of(#[trigger] sorted[j], by) > edge_of(
                rect,
                by,
            ),
        forall|j: int|
            0 <= j < place_of(sorted, rect, by, k) ==> edge_of(#[trigger] sorted[j], by)
                <= edge_of(rect, by),
    decreases k,
{
    if k > 0 {
        if edge_of(sorted[k - 1], by) > edge_of(rect, by) {
            lemma_place(sorted, rect, by, k - 1);
        } else {
            assert forall|j: int| 0 <= j < k implies edge_of(#[trigger] sorted[j], by) <= edge_of(
                rect,
                by,
            ) by {
                assert(edge_of(sorted[j], by) <= edge_of(sorted[k - 1], by));
            }
        }
    }
}

/// Putting the first `k` rectangles in order keeps them all, brings them
/// into ascending order of the edge, and neither drops nor adds one.
pub proof fn lemma_in_order(rects: Seq<Rect>, by: Edge, k: int)
    requires
        0 <= k <= rects.len(),
    ensures
        in_order_upto(rects, by, k).len() == k,
        ordered_by(in_order_upto(rects, by, k), by),
        in_order_upto(rects, by, k).to_multiset() == rects.take(k).to_multiset(),
    decreases k,
{
    broadcast use vstd::seq_lib::group_to_multiset_ensures;

    if k > 0 {
        lemma_in_order(rects, by, k - 1);
        let before = in_order_upto(rects, by, k - 1);
        let rect = rects[k - 1];
        let at = place_of(before, rect, by, before.len() as int);
        lemma_place(before, rect, by, before.len() as int);
        let now = before.insert(at, rect);
        assert forall|i: int, j: int| 0 <= i <= j < now.len() implies edge_of(now[i], by)
            <= edge_of(now[j], by) by {
            if i < at && j > at {
                assert(edge_of(before[i], by) <= edge_of(before[j - 1], by));
            } else if i > at {
                assert(edge_of(before[i - 1], by) <= edge_of(before[j - 1], by));
            } else if j < at {
                assert(edge_of(before[i], by) <= edge_of(before[j], by));
            }
        }
        assert(now.remove(at) =~= before);
        assert(now.to_multiset() =~= before.to_multiset().insert(rect)) by {
            assert(now[at] == rect);
            assert(now.contains(rect));
        }
        assert(rects.take(k) =~= rects.take(k - 1).push(rect));
    } else {
        assert(rects.take(0) =~= Seq::<Rect>::empty());
    }
}

/// Puts the rectangles in ascending order of the given edge and leaves
/// rectangles with the same edge in the order in which they came.
pub fn sort_by_edge(rects: &mut Vec<Rect>, by: Edge)
    ensures
        final(rects)@ == in_order(old(rects)@, by),
        final(rects).len() == old(rects).len(),
        ordered_by(final(rects)@, by),
        final(rects)@.to_multiset() == old(rects)@.to_multiset(),
{
    let mut sorted: Vec<Rect> = Vec::new();
    let mut i: usize = 0;
    while i < rects.len()
        invariant
            i <= rects.len(),
            rects@ == old(rects)@,
            sorted@ == in_order_upto(rects@, by, i as int),
        decreases rects.len() - i,
    {
        let rect = rects[i];
        proof {
            lemma_in_order(rects@, by, i as int);
        }
        let mut at: usize = sorted.len();
        while at > 0 && edge_at(&sorted[at - 1], by) > edge_at(&rect, by)
            invariant
                at <= sorted.len(),
                place_of(sorted@, rect, by, sorted.len() as int) == place_of(
                    sorted@,
                    rect,
                    by,
                    at as int,
                ),
            decreases at,
        {
            at = at - 1;
        }
        sorted.insert(at, rect);
        i = i + 1;
    }
    proof {
        lemma_in_order(rects@, by, rects.len() as int);
        assert(rects@.take(rects.len() as int) =~= rects@);
    }
    *rects = sorted;
}

impl Rect {
    /// The rectangle with the given corner and size.
    pub fn new(x: i32, y: i32, width: i32, height: i32) -> (rect: Rect)
        ensures
            rect == (Rect { x, y, width, height }),
    {
        Rect { x, y, width, height }
    }

    /// The rectangle between the given edges.
    pub fn between(left: i32, top: i32, right: i32, bottom: i32) -> (rect: Rect)
        requires
            i32::MIN <= right - left <= i32::MAX,
            i32::MIN <= bottom - top <= i32::MAX,
        ensures
            rect == (Rect { x: left, y: top, width: (right - left) as i32, height: (bottom - top) as i32 }),
    {
        Rect { x: left, y: top, width: right - left, height: bottom - top }
    }

    /// The number of pixels that the rectangle covers.
    pub fn area(&self) -> (area: i64)
        ensures
            area == self.width * self.height,
    {
        assert(-0x4000_0000_0000_0000 <= self.width * self.height <= 0x4000_0000_0000_0000)
            by (nonlinear_arith)
            requires
                -0x8000_0000 <= self.width <= 0x7fff_ffff,
                -0x8000_0000 <= self.height <= 0x7fff_ffff,
        ;
        (self.width as i64) * (self.height as i64)
    }
}

/// A count of pixels or rectangles as an unsigned size; a negative count
/// is reported as out of range.
pub fn size_from_count(count: i32) -> (size: Result<u32, String>)
    ensures
        match size {
            Ok(n) => n == count,
            Err(message) => count < 0 && message@ == out_of_range_message(),
        },
{
    if count < 0 {
        Err("out of range integral type conversion attempted".to_owned())
    } else {
        Ok(count as u32)
    }
}

/// A length as a grid dimension; a length beyond the range of `u32` is
/// reported as out of range.
pub fn dimension_from_len(len: usize) -> (dimension: Result<u32, String>)
    ensures
        match dimension {
            Ok(n) => n == len,
            Err(message) => len > u32::MAX && message@ == out_of_range_message(),
        },
{
    if len > 0xffff_ffff {
        Err("out of range integral type conversion attempted".to_owned())
    } else {
        Ok(len as u32)
    }
}

/// Those of `rects` that cover more than `area_threshold` pixels, in the
/// order in which they came.
pub fn large_rects(rects: &Vec<Rect>, area_threshold: i32) -> (kept: Vec<Rect>)
    ensures
        kept@ == rects@.filter(|rect: Rect| is_large(rect, area_threshold)),
{
    let ghost large = |rect: Rect| is_large(rect, area_threshold);
    let mut kept: Vec<Rect> = Vec::new();
    let mut i: usize = 0;
    assert(rects@.take(0).filter(large) =~= Seq::<Rect>::empty());
    while i < rects.len()
        invariant
            i <= rects.len(),
            large == (|rect: Rect| is_large(rect, area_threshold)),
            kept@ == rects@.take(i as int).filter(large),
        decreases rects.len() - i,
    {
        let rect = rects[i];
        proof {
            reveal_with_fuel(Seq::filter, 1);
            assert(rects@.take(i + 1).drop_last() =~= rects@.take(i as int));
            assert(rects@.take(i + 1).last() == rect);
        }
        if rect.area() > area_threshold as i64 {
            kept.push(rect);
        }
        i = i + 1;
    }
    assert(rects@.take(rects.len() as int) =~= rects@);
    kept
}

/// Every rectangle of `rects` can be moved by `(dx, dy)` within the range
/// of the coordinates.
pub open spec fn can_shift(rects: Seq<Rect>, dx: i32, dy: i32) -> bool {
    forall|i: int|
        0 <= i < rects.len() ==> i32::MIN <= (#[trigger] rects[i]).x + dx <= i32::MAX && i32::MIN
            <= rects[i].y + dy <= i32::MAX
}

/// Moves every rectangle by `(dx, dy)`, from the coordinates of a part of
/// the image to those of the whole.
pub fn shift_rects(rects: &mut Vec<Rect>, dx: i32, dy: i32)
    requires
        can_shift(old(rects)@, dx, dy),
    ensures
        final(rects).len() == old(rects).len(),
        forall|i: int|
            0 <= i < old(rects).len() ==> #[trigger] final(rects)[i] == (Rect {
                x: (old(rects)[i].x + dx) as i32,
                y: (old(rects)[i].y + dy) as i32,
                ..old(rects)[i]
            }),
{
    let mut i: usize = 0;
    while i < rects.len()
        invariant
            i <= rects.len(),
            rects.len() == old(rects).len(),
            can_shift(old(rects)@, dx, dy),
            forall|k: int| i <= k < rects.len() ==> #[trigger] rects[k] == old(rects)[k],
            forall|k: int|
                0 <= k < i ==> #[trigger] rects[k] == (Rect {
                    x: (old(rects)[k].x + dx) as i32,
                    y: (old(rects)[k].y + dy) as i32,
                    ..old(rects)[k]
                }),
        decreases rects.len() - i,
    {
        let rect = rects[i];
        assert(rect == old(rects)@[i as int]);
        rects.set(i, Rect { x: rect.x + dx, y: rect.y + dy, width: rect.width, height: rect.height });
        i = i + 1;
    }
}

/// The part of `roi` that the rows span: from the upper edge of the first
/// row to the lower edge of the last. Without rows it is `roi` itself.
pub open spec fn spanned(roi: Rect, rows: Seq<Rect>) -> Rect {
    if rows.len() == 0 {
        roi
    } else {
        Rect {
            y: rows.first().y,
            height: (rows.last().y + rows.last().height - rows.first().y) as i32,
            ..roi
        }
    }
}

/// The rows can be spanned within the range of the coordinates.
pub open spec fn can_span(roi: Rect, rows: Seq<Rect>) -> bool {
    if rows.len() == 0 {
        i32::MIN <= roi.y + roi.height <= i32::MAX
    } else {
        &&& i32::MIN <= rows.last().y + rows.last().height <= i32::MAX
        &&& i32::MIN <= rows.last().y + rows.last().height - rows.first().y <= i32::MAX
    }
}

/// Cuts `roi` down to the rows found in it, so that what lies above the
/// first row and below the last is left out.
pub fn fit_to_rows(roi: Rect, rows: &Vec<Rect>) -> (fitted: Rect)
    requires
        can_span(roi, rows@),
    ensures
        fitted == spanned(roi, rows@),
{
    let mut roi = roi;
    if rows.len() > 0 {
        roi.y = rows[0].y;
    }
    let new_grid_bottom_y: i32 = if rows.len() > 0 {
        let last = rows[rows.len() - 1];
        last.y + last.height
    } else {
        roi.y + roi.height
    };
    roi.height = new_grid_bottom_y - roi.y;
    roi
}

/// Puts the rows in ascending order of their upper edge and cuts `roi`
/// down to them.
pub fn arrange_rows(rows: &mut Vec<Rect>, roi: Rect) -> (fitted: Rect)
    requires
        can_span(roi, in_order(old(rows)@, Edge::Top)),
    ensures
        final(rows)@ == in_order(old(rows)@, Edge::Top),
        fitted == spanned(roi, final(rows)@),
{
    sort_by_edge(rows, Edge::Top);
    fit_to_rows(roi, rows)
}

/// `cells` holds the crossing of every row with every column, row after
/// row.
pub open spec fn is_grid_of(cells: Seq<Rect>, rows: Seq<Rect>, cols: Seq<Rect>) -> bool {
    &&& cells.len() == rows.len() * cols.len()
    &&& forall|i: int, j: int|
        0 <= i < rows.len() && 0 <= j < cols.len() ==> cells[i * cols.len() + j] == crossing(
            #[trigger] rows[i],
            #[trigger] cols[j],
        )
}

/// The cells of the grid that `rows` and `cols` make, row after row.
pub fn grid_cells(rows: &Vec<Rect>, cols: &Vec<Rect>) -> (cells: Vec<Rect>)
    ensures
        is_grid_of(cells@, rows@, cols@),
{
    let mut cells: Vec<Rect> = Vec::new();
    let mut i: usize = 0;
    while i < rows.len()
        invariant
            i <= rows.len(),
            cells.len() == i * cols.len(),
            forall|a: int, b: int|
                0 <= a < i && 0 <= b < cols.len() ==> cells[a * cols.len() + b] == crossing(
                    #[trigger] rows[a],
                    #[trigger] cols[b],
                ),
        decreases rows.len() - i,
    {
        let row = rows[i];
        let mut j: usize = 0;
        while j < cols.len()
            invariant
                i < rows.len(),
                row == rows[i as int],
                j <= cols.len(),
                cells.len() == i * cols.len() + j,
                forall|a: int, b: int|
                    0 <= a < i && 0 <= b < cols.len() ==> cells[a * cols.len() + b] == crossing(
                        #[trigger] rows[a],
                        #[trigger] cols[b],
                    ),
                forall|b: int|
                    0 <= b < j ==> cells[i * cols.len() + b] == crossing(row, #[trigger] cols[b]),
            decreases cols.len() - j,
        {
            let col = cols[j];
            let ghost before = cells@;
            // map to image coordinates
            cells.push(Rect { x: col.x, y: row.y, width: col.width, height: row.height });
            proof {
                assert forall|a: int, b: int| 0 <= a < i && 0 <= b < cols.len() implies cells[a
                    * cols.len() + b] == crossing(#[trigger] rows[a], #[trigger] cols[b]) by {
                    crate::types::lemma_index_in_bounds(i as int, cols.len() as int, a, b);
                    assert(before[a * cols.len() + b] == crossing(rows[a], cols[b]));
                }
            }
            j = j + 1;
        }
        proof {
            assert((i + 1) * cols.len() == i * cols.len() + cols.len()) by (nonlinear_arith);
        }
        i = i + 1;
    }
    cells
}

/// What a scan of the grid has found: the rows as they are, the columns
/// in ascending order of their left edge, and the cell at every crossing.
/// A number of rows or columns beyond the range of `u32` is reported as
/// out of range.
pub fn grid_info(rows: &Vec<Rect>, cols: &mut Vec<Rect>) -> (info: Result<CellScanInfo, String>)
    ensures
        final(cols)@ == in_order(old(cols)@, Edge::Left),
        match info {
            Ok(found) => {
                &&& found.rows == rows.len()
                &&& found.cols == old(cols).len()
                &&& is_grid_of(found.cells@, rows@, final(cols)@)
            },
            Err(message) => {
                &&& rows.len() > u32::MAX || old(cols).len() > u32::MAX
                &&& message@ == out_of_range_message()
            },
        },
{
    // Sort cols by x coordinate
    sort_by_edge(cols, Edge::Left);
    let cells = grid_cells(rows, cols);
    let rows = match dimension_from_len(rows.len()) {
        Ok(n) => n,
        Err(message) => {
            return Err(message);
        },
    };
    let cols = match dimension_from_len(cols.len()) {
        Ok(n) => n,
        Err(message) => {
            return Err(message);
        },
    };
    Ok(CellScanInfo { rows, cols, cells })
}

/// The cell of a daemon that column `col` cuts out of the daemon's row
/// `roi`.
pub open spec fn daemon_cell(roi: Rect, col: Rect) -> Rect {
    Rect { x: col.x, y: roi.y, width: col.width, height: roi.height }
}

/// What a scan of one daemon's row `roi` has found: one row, the columns
/// in ascending order of their left edge, and one cell for each column.
/// A number of columns beyond the range of `u32` is reported as out of
/// range.
pub fn daemon_info(cols: &mut Vec<Rect>, roi: &Rect) -> (info: Result<CellScanInfo, String>)
    ensures
        final(cols)@ == in_order(old(cols)@, Edge::Left),
        match info {
            Ok(found) => {
                &&& found.rows == 1
                &&& found.cols == old(cols).len()
                &&& found.cells.len() == old(cols).len()
                &&& forall|j: int|
                    0 <= j < found.cells.len() ==> #[trigger] found.cells[j] == daemon_cell(
                        *roi,
                        final(cols)[j],
                    )
            },
            Err(message) => old(cols).len() > u32::MAX && message@ == out_of_range_message(),
        },
{
    // Sort cols by x coordinate
    sort_by_edge(cols, Edge::Left);
    let mut cells: Vec<Rect> = Vec::new();
    let mut j: usize = 0;
    while j < cols.len()
        invariant
            j <= cols.len(),
            cells.len() == j,
            forall|k: int| 0 <= k < j ==> #[trigger] cells[k] == daemon_cell(*roi, cols[k]),
        decreases cols.len() - j,
    {
        let col = cols[j];
        cells.push(Rect { x: col.x, y: roi.y, width: col.width, height: roi.height });
        j = j + 1;
    }
    let cols = match dimension_from_len(cols.len()) {
        Ok(n) => n,
        Err(message) => {
            return Err(message);
        },
    };
    Ok(CellScanInfo { rows: 1, cols, cells })
}

/// The part of the screen in which one daemon is looked for: from `left`
/// as far as `max_length` cells of `cell_width` reach, between `top` and
/// `bottom`.
pub fn daemon_region(left: i32, top: i32, bottom: i32, cell_width: i32, max_length: i32) -> (roi:
    Rect)
    requires
        i32::MIN <= cell_width * max_length <= i32::MAX,
        i32::MIN <= bottom - top <= i32::MAX,
    ensures
        roi == (Rect {
            x: left,
            y: top,
            width: (cell_width * max_length) as i32,
            height: (bottom - top) as i32,
        }),
{
    let max_width: i32 = cell_width * max_length;
    let height: i32 = bottom - top;
    Rect { x: left, y: top, width: max_width, height }
}

} // verus!
