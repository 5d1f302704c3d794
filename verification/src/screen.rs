//! Scroll arithmetic of the document and tree panes: which first row keeps the selected
//! block, the cursor, or the tree cursor on screen, and how a wheel scroll clamps.

use vstd::prelude::*;

verus! {

/// `n - m`, or 0 when `m > n`.
pub open spec fn sat_sub(n: int, m: int) -> int {
    if n > m {
        n - m
    } else {
        0
    }
}

/// Clamp a selection index into `0..len` (0 for an empty list).
pub fn clamp_selection(index: usize, len: usize) -> (r: usize)
    ensures
        r == if index < sat_sub(len as int, 1) {
            index as int
        } else {
            sat_sub(len as int, 1)
        },
        len > 0 ==> r < len,
{
    let last = if len > 0 {
        len - 1
    } else {
        0
    };
    if index < last {
        index
    } else {
        last
    }
}

/// First visible row that shows a block starting at row `first` and `rows` rows long in
/// a window of `height` rows: scrolled up to one row above it when it starts above the
/// window, scrolled down (never past its first row) when it ends below, else unchanged.
pub open spec fn block_scroll(scroll: int, first: int, rows: int, height: int) -> int {
    let last = first + sat_sub(rows, 1);
    if first < scroll {
        sat_sub(first, 1)
    } else if last >= scroll + height {
        let down = sat_sub(last + 2, height);
        if down < first {
            down
        } else {
            first
        }
    } else {
        scroll
    }
}

/// Scroll so the selected block is on screen (see `block_scroll`). The block's first row
/// never ends up above the window.
pub fn ensure_selected_visible(scroll: usize, first: usize, rows: usize, height: usize) -> (r: usize)
    requires
        first + sat_sub(rows as int, 1) + 2 <= usize::MAX,
        scroll + height <= usize::MAX,
    ensures
        r == block_scroll(scroll as int, first as int, rows as int, height as int),
        r <= first,
        scroll <= first && first + sat_sub(rows as int, 1) < scroll + height ==> r == scroll,
        first < scroll ==> r + 1 >= first,
        scroll <= first && first + sat_sub(rows as int, 1) >= scroll + height && rows + 1
            <= height ==> first + sat_sub(rows as int, 1) < r + height,
{
    let last = first + if rows > 0 {
        rows - 1
    } else {
        0
    };
    if first < scroll {
        if first > 0 {
            first - 1
        } else {
            0
        }
    } else if last >= scroll + height {
        let down = if last + 2 > height {
            last + 2 - height
        } else {
            0
        };
        if down < first {
            down
        } else {
            first
        }
    } else {
        scroll
    }
}

/// First visible row that shows row `row` in a window of `height` rows.
pub open spec fn row_scroll(scroll: int, row: int, height: int) -> int {
    if row < scroll {
        row
    } else if row >= scroll + height {
        row + 1 - height
    } else {
        scroll
    }
}

/// Scroll so the cursor row is on screen; a cursor already visible moves nothing.
pub fn ensure_cursor_visible(scroll: usize, row: usize, height: usize) -> (r: usize)
    requires
        scroll + height <= usize::MAX,
        row + 1 <= usize::MAX,
    ensures
        r == row_scroll(scroll as int, row as int, height as int),
        height >= 1 ==> r <= row < r + height,
        scroll <= row < scroll + height ==> r == scroll,
{
    if row < scroll {
        row
    } else if row >= scroll + height {
        row + 1 - height
    } else {
        scroll
    }
}

/// `scroll + delta` clamped to `0..=max`.
pub open spec fn clamped_scroll(scroll: int, delta: int, max: int) -> int {
    if scroll + delta < 0 {
        0
    } else if scroll + delta > max {
        max
    } else {
        scroll + delta
    }
}

/// Scroll by `delta` rows, never before the top nor past the last full window of a
/// `total`-row pane `height` rows high.
pub fn scroll_by(scroll: usize, delta: i64, total: usize, height: usize) -> (r: usize)
    requires
        scroll <= i64::MAX,
        sat_sub(total as int, height as int) <= i64::MAX,
        i64::MIN <= scroll + delta <= i64::MAX,
    ensures
        r == clamped_scroll(scroll as int, delta as int, sat_sub(total as int, height as int)),
        r <= sat_sub(total as int, height as int),
        0 <= scroll + delta <= sat_sub(total as int, height as int) ==> r == scroll + delta,
{
    let max = if total > height {
        total - height
    } else {
        0
    };
    let moved = scroll as i64 + delta;
    if moved < 0 {
        0
    } else if moved > max as i64 {
        max
    } else {
        moved as usize
    }
}

/// First visible tree row that shows the tree cursor in a window of `height` rows, never
/// past the last full window of a `len`-row tree. A zero-height window moves nothing.
pub open spec fn tree_scroll(cursor: int, scroll: int, height: int, len: int) -> int {
    if height == 0 {
        scroll
    } else {
        let s = row_scroll(scroll, cursor, height);
        let max = sat_sub(len, height);
        if s < max {
            s
        } else {
            max
        }
    }
}

/// Move the tree's window so the cursor is inside its `height` visible rows.
pub fn keep_tree_cursor_visible(cursor: usize, scroll: usize, height: usize, len: usize) -> (r: usize)
    requires
        scroll + height <= usize::MAX,
        cursor + 1 <= usize::MAX,
    ensures
        r == tree_scroll(cursor as int, scroll as int, height as int, len as int),
        height >= 1 && cursor < len ==> r <= cursor < r + height,
        height >= 1 ==> r <= sat_sub(len as int, height as int),
        height == 0 ==> r == scroll,
{
    if height == 0 {
        return scroll;
    }
    let s = ensure_cursor_visible(scroll, cursor, height);
    let max = if len > height {
        len - height
    } else {
        0
    };
    if s < max {
        s
    } else {
        max
    }
}

} // verus!
