use vstd::prelude::*;

verus! {

/// A rectangle of the screen: its upper left corner, and its extent.
#[derive(Debug, Clone, Copy, PartialEq, Eq, Structural)]
pub struct Area {
    pub x: u16,
    pub y: u16,
    pub width: u16,
    pub height: u16,
}

/// The smaller of two numbers.
pub open spec fn least(a: int, b: int) -> int {
    if a <= b {
        a
    } else {
        b
    }
}

/// Where the strip `k` begins when `length` units from `start` on are
/// shared out among `parts` strips: each strip gets the same share, and
/// the first strips take what is left over, one unit each.
pub open spec fn strip_start(start: int, length: int, parts: int, k: int) -> int {
    start + k * (length / parts) + least(k, length % parts)
}

/// How many units the strip `k` gets.
pub open spec fn strip_size(length: int, parts: int, k: int) -> int {
    length / parts + if k < length % parts {
        1int
    } else {
        0int
    }
}

/// The part of `inner` that shows the cell `i` of a grid with `cols`
/// columns and `rows` rows, the cells laid out row by row.
pub open spec fn cell_of(inner: Area, cols: int, rows: int, i: int) -> (int, int, int, int) {
    (
        strip_start(inner.x as int, inner.width as int, cols, i % cols),
        strip_start(inner.y as int, inner.height as int, rows, i / cols),
        strip_size(inner.width as int, cols, i % cols),
        strip_size(inner.height as int, rows, i / cols),
    )
}

/// The strips lie side by side: the first begins at `start`, each ends
/// where the next begins, and the last ends where the units end.
pub proof fn lemma_strips_abut(start: int, length: int, parts: int, k: int)
    requires
        0 <= length,
        0 < parts,
        0 <= k < parts,
    ensures
        strip_start(start, length, parts, 0) == start,
        strip_start(start, length, parts, k) + strip_size(length, parts, k) == strip_start(
            start,
            length,
            parts,
            k + 1,
        ),
        strip_start(start, length, parts, parts) == start + length,
        start <= strip_start(start, length, parts, k),
        strip_start(start, length, parts, k + 1) <= start + length,
        0 <= strip_size(length, parts, k),
{
    let q = length / parts;
    let r = length % parts;
    vstd::arithmetic::div_mod::lemma_fundamental_div_mod(length, parts);
    vstd::arithmetic::div_mod::lemma_mod_pos_bound(length, parts);
    vstd::arithmetic::div_mod::lemma_div_pos_is_pos(length, parts);
    assert(0 * q == 0);
    assert((k + 1) * q == k * q + q) by (nonlinear_arith);
    assert(parts * q == q * parts) by (nonlinear_arith);
    assert(0 <= k * q) by (nonlinear_arith)
        requires
            0 <= k,
            0 <= q,
    ;
    assert((k + 1) * q <= parts * q) by (nonlinear_arith)
        requires
            k + 1 <= parts,
            0 <= q,
    ;
}

/// The part of `inner` that shows the cell `i` of a grid with `num_cols`
/// columns and `num_rows` rows; `None` for a cell beyond the last row.
pub fn cell_area(inner: Area, num_cols: usize, num_rows: usize, i: usize) -> (cell: Option<Area>)
    requires
        num_cols >= 1,
        num_rows >= 1,
        inner.x + inner.width <= u16::MAX,
        inner.y + inner.height <= u16::MAX,
    ensures
        match cell {
            Some(area) => i / num_cols < num_rows && (
                area.x as int,
                area.y as int,
                area.width as int,
                area.height as int,
            ) == cell_of(inner, num_cols as int, num_rows as int, i as int),
            None => i / num_cols >= num_rows,
        },
{
    let row: usize = i / num_cols;
    let col: usize = i % num_cols;
    if row >= num_rows {
        return None;
    }
    let width: usize = inner.width as usize;
    let height: usize = inner.height as usize;
    let cell_width: usize = width / num_cols;
    let cell_height: usize = height / num_rows;
    let remaining_width: usize = width % num_cols;
    let remaining_height: usize = height % num_rows;
    let extra_width: usize = if col < remaining_width {
        1
    } else {
        0
    };
    let extra_height: usize = if row < remaining_height {
        1
    } else {
        0
    };
    proof {
        lemma_strips_abut(inner.x as int, width as int, num_cols as int, col as int);
        lemma_strips_abut(inner.y as int, height as int, num_rows as int, row as int);
        assert(col * cell_width + least(col as int, remaining_width as int) <= width);
        assert(row * cell_height + least(row as int, remaining_height as int) <= height);
        assert(0 <= col * cell_width) by (nonlinear_arith)
            requires
                0 <= col,
                0 <= cell_width,
        ;
        assert(0 <= row * cell_height) by (nonlinear_arith)
            requires
                0 <= row,
                0 <= cell_height,
        ;
    }
    let shift_x: usize = col * cell_width + if col < remaining_width {
        col
    } else {
        remaining_width
    };
    let shift_y: usize = row * cell_height + if row < remaining_height {
        row
    } else {
        remaining_height
    };
    Some(
        Area {
            x: inner.x + shift_x as u16,
            y: inner.y + shift_y as u16,
            width: (cell_width + extra_width) as u16,
            height: (cell_height + extra_height) as u16,
        },
    )
}

} // verus!
