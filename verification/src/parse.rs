//! Utility methods to split a `Crossword` into component words.

use crate::crossword::Crossword;
use crate::crossword::Direction;
use crate::crossword::lemma_row_major_index;
use vstd::prelude::*;

verus! {

/// A representation of a word in a `Crossword`. Note that a `WordBoundary` is
/// not attached to a specific `Crossword`, and that it is mostly used to
/// represent a location in a grid.
///
/// Note that a `WordBoundary` can be combined with a `&Crossword` to create a
/// `WordIterator`, which will produce the `char`s present in that specific
/// `Crossword`.
#[derive(Debug, PartialEq, Eq, Structural, Clone, Copy)]
pub struct WordBoundary {
    pub start_row: usize,
    pub start_col: usize,
    pub length: usize,
    pub direction: Direction,
}

impl WordBoundary {
    pub fn new(start_row: usize, start_col: usize, length: usize, direction: Direction) -> (r:
        WordBoundary)
        ensures
            r == (WordBoundary { start_row, start_col, length, direction }),
    {
        WordBoundary { start_row, start_col, length, direction }
    }

    /// The row-major index of the `k`-th cell covered by this word.
    pub open spec fn cell_index(&self, k: int, width: int) -> int {
        match self.direction {
            Direction::Across => self.start_row * width + self.start_col + k,
            Direction::Down => (self.start_row + k) * width + self.start_col,
        }
    }

    /// The word lies entirely within a grid of the given dimensions.
    pub open spec fn fits(&self, width: int, height: int) -> bool {
        match self.direction {
            Direction::Across => self.start_row < height && self.start_col + self.length <= width,
            Direction::Down => self.start_col < width && self.start_row + self.length <= height,
        }
    }

    /// Whether the row-major cell `i` lies under this word.
    pub open spec fn covers(&self, i: int, width: int) -> bool {
        exists|k: int| 0 <= k < self.length && #[trigger] self.cell_index(k, width) == i
    }
}

/// Every cell of a fitting word boundary indexes into the grid's cell array.
pub proof fn lemma_slot_cell_index(b: WordBoundary, k: int, w: int, h: int)
    requires
        b.fits(w, h),
        0 <= k < b.length,
    ensures
        0 <= b.cell_index(k, w) < w * h,
{
    match b.direction {
        Direction::Across => {
            lemma_row_major_index(b.start_row as int, b.start_col + k, w, h);
        },
        Direction::Down => {
            lemma_row_major_index(b.start_row + k, b.start_col as int, w, h);
        },
    }
}

/// A maximal run of at least two non-block cells along one direction: the
/// cells just outside its endpoints (if any) are blocks, and no interior cell
/// is a block.
pub open spec fn is_slot_of(g: Crossword, b: WordBoundary) -> bool {
    let w = g.spec_width() as int;
    let h = g.spec_height() as int;
    &&& b.length >= 2
    &&& b.fits(w, h)
    &&& (forall|k: int| 0 <= k < b.length ==> g@[#[trigger] b.cell_index(k, w)] != '*')
    &&& (match b.direction {
        Direction::Across => (b.start_col == 0 || g@[b.cell_index(-1, w)] == '*') && (b.start_col
            + b.length == w || g@[b.cell_index(b.length as int, w)] == '*'),
        Direction::Down => (b.start_row == 0 || g@[b.cell_index(-1, w)] == '*') && (b.start_row
            + b.length == h || g@[b.cell_index(b.length as int, w)] == '*'),
    })
}

/// An across slot in row `row` that ends at column `e` coincides with the
/// maximal run of non-block cells that ends there.
proof fn lemma_across_run_unique(g: Crossword, row: int, s: int, e: int, b: WordBoundary)
    requires
        0 <= row < g.spec_height(),
        0 <= s <= e <= g.spec_width(),
        forall|k: int| s <= k < e ==> g.spec_cell(row, k) != '*',
        s == 0 || g.spec_cell(row, s - 1) == '*',
        is_slot_of(g, b),
        b.direction == Direction::Across,
        b.start_row == row,
        b.start_col + b.length == e,
    ensures
        b.start_col == s,
        b.length == e - s,
{
    let w = g.spec_width() as int;
    if b.start_col < s {
        assert(s >= 1);
        assert(s - 1 - b.start_col < b.length);
        assert(g@[b.cell_index(s - 1 - b.start_col, w)] != '*');
        assert(b.cell_index(s - 1 - b.start_col, w) == row * w + (s - 1));
        assert(g.spec_cell(row, s - 1) != '*');
    }
    if b.start_col > s {
        assert(b.start_col <= e);
        assert(g@[b.cell_index(-1, w)] == '*');
        assert(b.cell_index(-1, w) == row * w + (b.start_col - 1));
        assert(g.spec_cell(row, b.start_col - 1) == '*');
        assert(s <= b.start_col - 1 < e);
    }
}

/// A down slot in column `col` that ends at row `e` coincides with the
/// maximal run of non-block cells that ends there.
proof fn lemma_down_run_unique(g: Crossword, col: int, s: int, e: int, b: WordBoundary)
    requires
        0 <= col < g.spec_width(),
        0 <= s <= e <= g.spec_height(),
        forall|k: int| s <= k < e ==> g.spec_cell(k, col) != '*',
        s == 0 || g.spec_cell(s - 1, col) == '*',
        is_slot_of(g, b),
        b.direction == Direction::Down,
        b.start_col == col,
        b.start_row + b.length == e,
    ensures
        b.start_row == s,
        b.length == e - s,
{
    let w = g.spec_width() as int;
    if b.start_row < s {
        assert(s >= 1);
        assert(s - 1 - b.start_row < b.length);
        assert(g@[b.cell_index(s - 1 - b.start_row, w)] != '*');
        assert(b.cell_index(s - 1 - b.start_row, w) == (s - 1) * w + col);
        assert(g.spec_cell(s - 1, col) != '*');
    }
    if b.start_row > s {
        assert(b.start_row <= e);
        assert(g@[b.cell_index(-1, w)] == '*');
        assert(b.cell_index(-1, w) == (b.start_row - 1) * w + col);
        assert(g.spec_cell(b.start_row - 1, col) == '*');
        assert(s <= b.start_row - 1 < e);
    }
}

/// The order in which the parser reports words: Across before Down; two
/// Across words by row, then by the column where the run ends; two Down
/// words by column, then by the row where the run ends. For the disjoint
/// maximal runs of one line this is also the order of their starts.
pub open spec fn slot_order_lt(b1: WordBoundary, b2: WordBoundary) -> bool {
    ||| (b1.direction == Direction::Across && b2.direction == Direction::Down)
    ||| (b1.direction == Direction::Across && b2.direction == Direction::Across && (b1.start_row
        < b2.start_row || (b1.start_row == b2.start_row && b1.start_col + b1.length < b2.start_col
        + b2.length)))
    ||| (b1.direction == Direction::Down && b2.direction == Direction::Down && (b1.start_col
        < b2.start_col || (b1.start_col == b2.start_col && b1.start_row + b1.length < b2.start_row
        + b2.length)))
}

/// An across slot that has been fully scanned once the left-to-right walk of
/// its row has passed the given position.
pub open spec fn across_done(b: WordBoundary, row: int, col: int) -> bool {
    &&& b.direction == Direction::Across
    &&& (b.start_row < row || (b.start_row == row && b.start_col + b.length < col))
}

/// A down slot that has been fully scanned once the top-to-bottom walk of its
/// column has passed the given position.
pub open spec fn down_done(b: WordBoundary, row: int, col: int) -> bool {
    &&& b.direction == Direction::Down
    &&& (b.start_col < col || (b.start_col == col && b.start_row + b.length < row))
}

/// Parses a Crossword into a `Vec<WordBoundary>`. Returns all words present
/// in the puzzle: every maximal run of at least two non-block cells, Across
/// rows first and then Down columns.
///
/// Note that as a `Crossword` is being filled, the word boundaries do not
/// change.
pub fn parse_word_boundaries(crossword: &Crossword) -> (result: Vec<WordBoundary>)
    ensures
        forall|i: int|
            0 <= i < result@.len() ==> is_slot_of(*crossword, #[trigger] result@[i]),
        forall|b: WordBoundary| is_slot_of(*crossword, b) ==> result@.contains(b),
        forall|i: int, j: int| 0 <= i < j < result@.len() ==> result@[i] != result@[j],
        forall|i: int, j: int|
            #![trigger result@[i], result@[j]]
            0 <= i < j < result@.len() ==> slot_order_lt(result@[i], result@[j]),
{
    let g = crossword;
    proof {
        use_type_invariant(g);
    }
    let w = g.width();
    let h = g.height();
    let mut result: Vec<WordBoundary> = Vec::new();

    let mut row: usize = 0;
    while row < h
        invariant
            g.wf(),
            w == g.spec_width(),
            h == g.spec_height(),
            row <= h,
            forall|i: int|
                0 <= i < result@.len() ==> is_slot_of(*g, #[trigger] result@[i]) && across_done(
                    result@[i],
                    row as int,
                    0,
                ),
            forall|b: WordBoundary|
                is_slot_of(*g, b) && across_done(b, row as int, 0) ==> result@.contains(b),
            forall|i: int, j: int| 0 <= i < j < result@.len() ==> result@[i] != result@[j],
            forall|i: int, j: int|
                #![trigger result@[i], result@[j]]
                0 <= i < j < result@.len() ==> slot_order_lt(result@[i], result@[j]),
        decreases h - row,
    {
        let mut col: usize = 0;
        let mut len: usize = 0;
        while col < w
            invariant
                g.wf(),
                w == g.spec_width(),
                h == g.spec_height(),
                row < h,
                col <= w,
                len <= col,
                forall|k: int| col - len <= k < col ==> g.spec_cell(row as int, k) != '*',
                col - len == 0 || g.spec_cell(row as int, col - len - 1) == '*',
                forall|i: int|
                    0 <= i < result@.len() ==> is_slot_of(*g, #[trigger] result@[i])
                        && across_done(result@[i], row as int, col as int),
                forall|b: WordBoundary|
                    is_slot_of(*g, b) && across_done(b, row as int, col as int)
                        ==> result@.contains(b),
                forall|i: int, j: int| 0 <= i < j < result@.len() ==> result@[i] != result@[j],
                forall|i: int, j: int|
                    #![trigger result@[i], result@[j]]
                    0 <= i < j < result@.len() ==> slot_order_lt(result@[i], result@[j]),
            decreases w - col,
        {
            let c = g.cell(row, col);
            if c != '*' {
                len = len + 1;
                proof {
                    assert forall|b: WordBoundary|
                        is_slot_of(*g, b) && across_done(b, row as int, col + 1) implies result@.contains(
                        b,
                    ) by {
                        if b.start_row == row && b.start_col + b.length == col as int {
                            assert(g@[b.cell_index(b.length as int, w as int)] == '*');
                            assert(b.cell_index(b.length as int, w as int) == row as int * w
                                + col);
                            assert(g.spec_cell(row as int, col as int) == '*');
                        }
                    }
                }
            } else {
                let start = col - len;
                if len >= 2 {
                    let nb = WordBoundary {
                        start_row: row,
                        start_col: start,
                        length: len,
                        direction: Direction::Across,
                    };
                    proof {
                        assert forall|k: int| 0 <= k < nb.length implies g@[#[trigger] nb.cell_index(
                            k,
                            w as int,
                        )] != '*' by {
                            assert(nb.cell_index(k, w as int) == row as int * w + (start + k));
                            assert(g.spec_cell(row as int, start + k) != '*');
                        }
                        assert(nb.cell_index(nb.length as int, w as int) == row as int * w + col);
                        assert(g.spec_cell(row as int, col as int) == '*');
                        if nb.start_col > 0 {
                            assert(nb.cell_index(-1, w as int) == row as int * w + (start - 1));
                        }
                        assert(is_slot_of(*g, nb));
                        assert(!across_done(nb, row as int, col as int));
                    }
                    let ghost old_result = result@;
                    result.push(nb);
                    proof {
                        assert forall|b: WordBoundary|
                            is_slot_of(*g, b) && across_done(b, row as int, col + 1) implies result@.contains(
                            b,
                        ) by {
                            if b.start_row == row && b.start_col + b.length == col as int {
                                lemma_across_run_unique(
                                    *g,
                                    row as int,
                                    start as int,
                                    col as int,
                                    b,
                                );
                                assert(b == nb);
                                assert(result@[result@.len() - 1] == nb);
                            } else {
                                assert(across_done(b, row as int, col as int));
                                assert(old_result.contains(b));
                                let i = choose|i: int| 0 <= i < old_result.len() && old_result[i] == b;
                                assert(result@[i] == b);
                            }
                        }
                    }
                } else {
                    proof {
                        assert forall|b: WordBoundary|
                            is_slot_of(*g, b) && across_done(b, row as int, col + 1) implies result@.contains(
                            b,
                        ) by {
                            if b.start_row == row && b.start_col + b.length == col as int {
                                lemma_across_run_unique(
                                    *g,
                                    row as int,
                                    start as int,
                                    col as int,
                                    b,
                                );
                            }
                        }
                    }
                }
                len = 0;
            }
            col = col + 1;
        }
        if len >= 2 {
            let start = w - len;
            let nb = WordBoundary {
                start_row: row,
                start_col: start,
                length: len,
                direction: Direction::Across,
            };
            proof {
                assert forall|k: int| 0 <= k < nb.length implies g@[#[trigger] nb.cell_index(
                    k,
                    w as int,
                )] != '*' by {
                    assert(nb.cell_index(k, w as int) == row as int * w + (start + k));
                    assert(g.spec_cell(row as int, start + k) != '*');
                }
                if nb.start_col > 0 {
                    assert(nb.cell_index(-1, w as int) == row as int * w + (start - 1));
                }
                assert(is_slot_of(*g, nb));
            }
            let ghost old_result = result@;
            result.push(nb);
            proof {
                assert forall|b: WordBoundary|
                    is_slot_of(*g, b) && across_done(b, row + 1, 0) implies result@.contains(b) by {
                    if b.start_row == row {
                        assert(b.start_col + b.length <= w);
                        if b.start_col + b.length == w as int {
                            lemma_across_run_unique(*g, row as int, start as int, w as int, b);
                            assert(b == nb);
                            assert(result@[result@.len() - 1] == nb);
                        } else {
                            assert(across_done(b, row as int, w as int));
                            assert(old_result.contains(b));
                                let i = choose|i: int| 0 <= i < old_result.len() && old_result[i] == b;
                                assert(result@[i] == b);
                        }
                    } else {
                        assert(across_done(b, row as int, w as int));
                        assert(old_result.contains(b));
                                let i = choose|i: int| 0 <= i < old_result.len() && old_result[i] == b;
                                assert(result@[i] == b);
                    }
                }
            }
        } else {
            proof {
                assert forall|b: WordBoundary|
                    is_slot_of(*g, b) && across_done(b, row + 1, 0) implies result@.contains(b) by {
                    if b.start_row == row && b.start_col + b.length == w as int {
                        lemma_across_run_unique(*g, row as int, w - len, w as int, b);
                    }
                }
            }
        }
        row = row + 1;
    }

    let ghost across_only = result@;

    let mut col: usize = 0;
    while col < w
        invariant
            g.wf(),
            w == g.spec_width(),
            h == g.spec_height(),
            col <= w,
            forall|i: int|
                0 <= i < result@.len() ==> is_slot_of(*g, #[trigger] result@[i]) && (result@[i].direction
                    == Direction::Across || down_done(result@[i], 0, col as int)),
            forall|b: WordBoundary|
                is_slot_of(*g, b) && b.direction == Direction::Across ==> result@.contains(b),
            forall|b: WordBoundary|
                is_slot_of(*g, b) && down_done(b, 0, col as int) ==> result@.contains(b),
            forall|i: int, j: int| 0 <= i < j < result@.len() ==> result@[i] != result@[j],
            forall|i: int, j: int|
                #![trigger result@[i], result@[j]]
                0 <= i < j < result@.len() ==> slot_order_lt(result@[i], result@[j]),
        decreases w - col,
    {
        let mut row: usize = 0;
        let mut len: usize = 0;
        while row < h
            invariant
                g.wf(),
                w == g.spec_width(),
                h == g.spec_height(),
                col < w,
                row <= h,
                len <= row,
                forall|k: int| row - len <= k < row ==> g.spec_cell(k, col as int) != '*',
                row - len == 0 || g.spec_cell(row - len - 1, col as int) == '*',
                forall|i: int|
                    0 <= i < result@.len() ==> is_slot_of(*g, #[trigger] result@[i]) && (result@[i].direction
                        == Direction::Across || down_done(result@[i], row as int, col as int)),
                forall|b: WordBoundary|
                    is_slot_of(*g, b) && b.direction == Direction::Across ==> result@.contains(b),
                forall|b: WordBoundary|
                    is_slot_of(*g, b) && down_done(b, row as int, col as int) ==> result@.contains(
                        b,
                    ),
                forall|i: int, j: int| 0 <= i < j < result@.len() ==> result@[i] != result@[j],
                forall|i: int, j: int|
                    #![trigger result@[i], result@[j]]
                    0 <= i < j < result@.len() ==> slot_order_lt(result@[i], result@[j]),
            decreases h - row,
        {
            let c = g.cell(row, col);
            if c != '*' {
                len = len + 1;
                proof {
                    assert forall|b: WordBoundary|
                        is_slot_of(*g, b) && down_done(b, row + 1, col as int) implies result@.contains(
                        b,
                    ) by {
                        if b.start_col == col && b.start_row + b.length == row as int {
                            assert(g@[b.cell_index(b.length as int, w as int)] == '*');
                            assert(b.cell_index(b.length as int, w as int) == row as int * w
                                + col);
                            assert(g.spec_cell(row as int, col as int) == '*');
                        }
                    }
                }
            } else {
                let start = row - len;
                if len >= 2 {
                    let nb = WordBoundary {
                        start_row: start,
                        start_col: col,
                        length: len,
                        direction: Direction::Down,
                    };
                    proof {
                        assert forall|k: int| 0 <= k < nb.length implies g@[#[trigger] nb.cell_index(
                            k,
                            w as int,
                        )] != '*' by {
                            assert(nb.cell_index(k, w as int) == (start + k) * w + col);
                            assert(g.spec_cell(start + k, col as int) != '*');
                        }
                        assert(nb.cell_index(nb.length as int, w as int) == row as int * w + col);
                        assert(g.spec_cell(row as int, col as int) == '*');
                        if nb.start_row > 0 {
                            assert(nb.cell_index(-1, w as int) == (start - 1) * w + col);
                        }
                        assert(is_slot_of(*g, nb));
                        assert(!down_done(nb, row as int, col as int));
                        assert(nb.direction != Direction::Across);
                    }
                    let ghost old_result = result@;
                    result.push(nb);
                    proof {
                        assert forall|b: WordBoundary|
                            is_slot_of(*g, b) && down_done(b, row + 1, col as int) implies result@.contains(
                            b,
                        ) by {
                            if b.start_col == col && b.start_row + b.length == row as int {
                                lemma_down_run_unique(*g, col as int, start as int, row as int, b);
                                assert(b == nb);
                                assert(result@[result@.len() - 1] == nb);
                            } else {
                                assert(down_done(b, row as int, col as int));
                                assert(old_result.contains(b));
                                let i = choose|i: int| 0 <= i < old_result.len() && old_result[i] == b;
                                assert(result@[i] == b);
                            }
                        }
                        assert forall|b: WordBoundary|
                            is_slot_of(*g, b) && b.direction == Direction::Across implies result@.contains(
                            b,
                        ) by {
                            assert(old_result.contains(b));
                                let i = choose|i: int| 0 <= i < old_result.len() && old_result[i] == b;
                                assert(result@[i] == b);
                        }
                    }
                } else {
                    proof {
                        assert forall|b: WordBoundary|
                            is_slot_of(*g, b) && down_done(b, row + 1, col as int) implies result@.contains(
                            b,
                        ) by {
                            if b.start_col == col && b.start_row + b.length == row as int {
                                lemma_down_run_unique(*g, col as int, start as int, row as int, b);
                            }
                        }
                    }
                }
                len = 0;
            }
            row = row + 1;
        }
        if len >= 2 {
            let start = h - len;
            let nb = WordBoundary {
                start_row: start,
                start_col: col,
                length: len,
                direction: Direction::Down,
            };
            proof {
                assert forall|k: int| 0 <= k < nb.length implies g@[#[trigger] nb.cell_index(
                    k,
                    w as int,
                )] != '*' by {
                    assert(nb.cell_index(k, w as int) == (start + k) * w + col);
                    assert(g.spec_cell(start + k, col as int) != '*');
                }
                if nb.start_row > 0 {
                    assert(nb.cell_index(-1, w as int) == (start - 1) * w + col);
                }
                assert(is_slot_of(*g, nb));
                assert(nb.direction != Direction::Across);
            }
            let ghost old_result = result@;
            result.push(nb);
            proof {
                assert forall|b: WordBoundary|
                    is_slot_of(*g, b) && down_done(b, 0, col + 1) implies result@.contains(b) by {
                    if b.start_col == col && b.start_row + b.length == h as int {
                        lemma_down_run_unique(*g, col as int, start as int, h as int, b);
                        assert(b == nb);
                        assert(result@[result@.len() - 1] == nb);
                    } else {
                        assert(down_done(b, h as int, col as int));
                        assert(old_result.contains(b));
                                let i = choose|i: int| 0 <= i < old_result.len() && old_result[i] == b;
                                assert(result@[i] == b);
                    }
                }
                assert forall|b: WordBoundary|
                    is_slot_of(*g, b) && b.direction == Direction::Across implies result@.contains(
                    b,
                ) by {
                    assert(old_result.contains(b));
                    let i = choose|i: int| 0 <= i < old_result.len() && old_result[i] == b;
                    assert(result@[i] == b);
                }
            }
        } else {
            proof {
                assert forall|b: WordBoundary|
                    is_slot_of(*g, b) && down_done(b, 0, col + 1) implies result@.contains(b) by {
                    if b.start_col == col && b.start_row + b.length == h as int {
                        lemma_down_run_unique(*g, col as int, h - len, h as int, b);
                    } else {
                        assert(down_done(b, h as int, col as int));
                    }
                }
            }
        }
        col = col + 1;
    }
    proof {
        assert forall|b: WordBoundary| is_slot_of(*g, b) implies result@.contains(b) by {
            if b.direction == Direction::Down {
                assert(b.start_col < w);
                assert(down_done(b, 0, w as int));
            }
        }
    }
    result
}

/// The characters currently under a word boundary, in order.
pub open spec fn slot_seq(cells: Seq<char>, b: WordBoundary, width: int) -> Seq<char> {
    Seq::new(b.length as nat, |k: int| cells[b.cell_index(k, width)])
}

/// The characters of the word `b` in the grid `g`.
pub open spec fn slot_view(g: Crossword, b: WordBoundary) -> Seq<char> {
    slot_seq(g@, b, g.spec_width() as int)
}

} // verus!
