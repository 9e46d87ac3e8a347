//! The text rendering of a board: one row per grid row, each cell a
//! fixed three-character glyph, rows separated by a line feed.
use crate::board::Board;
use crate::board::Cell;
use crate::board::CellContent;
use crate::board::CellVis;
use vstd::prelude::*;

verus! {

/// The three ASCII bytes for one cell: `[ ]` unopened, `[F]` flagged,
/// three blanks for an opened empty cell, `[N]` for an opened numbered
/// cell, `{+}` for an opened mine.
pub open spec fn glyph(c: Cell) -> Seq<u8> {
    match c.vis {
        CellVis::Closed => seq![91u8, 32u8, 93u8],
        CellVis::Flagged => seq![91u8, 70u8, 93u8],
        CellVis::Opened => match c.content {
            CellContent::Mine => seq![123u8, 43u8, 125u8],
            CellContent::Safe(n) => if n == 0 {
                seq![32u8, 32u8, 32u8]
            } else {
                seq![91u8, (48 + n) as u8, 93u8]
            },
        },
    }
}

/// The rendering of the first `i` cells, a line feed closing each row.
pub open spec fn render_upto(b: Board, i: int) -> Seq<u8>
    decreases i,
{
    if i <= 0 {
        Seq::empty()
    } else {
        let r = render_upto(b, i - 1) + glyph(b.cells@[i - 1]);
        if i % (b.width as int) == 0 {
            r.push(10u8)
        } else {
            r
        }
    }
}

/// The full text grid of a board.
pub open spec fn spec_render(b: Board) -> Seq<u8> {
    render_upto(b, b.cells@.len() as int)
}

/// Render the board as ASCII text, row by row.
pub fn render(b: &Board) -> (r: Vec<u8>)
    requires
        b.wf(),
    ensures
        r@ == spec_render(*b),
{
    let n = b.cells.len();
    let w = b.width;
    let mut out: Vec<u8> = Vec::new();
    let mut i: usize = 0;
    while i < n
        invariant
            i <= n,
            n == b.cells@.len(),
            b.wf(),
            w == b.width,
            out@ == render_upto(*b, i as int),
        decreases n - i,
    {
        let c = b.cells[i];
        match c.vis {
            CellVis::Closed => {
                out.push(91);
                out.push(32);
                out.push(93);
            },
            CellVis::Flagged => {
                out.push(91);
                out.push(70);
                out.push(93);
            },
            CellVis::Opened => {
                match c.content {
                    CellContent::Mine => {
                        out.push(123);
                        out.push(43);
                        out.push(125);
                    },
                    CellContent::Safe(k) => {
                        if k == 0 {
                            out.push(32);
                            out.push(32);
                            out.push(32);
                        } else {
                            proof {
                                crate::board::lemma_cell_index_coords(*b, i as int);
                            }
                            assert(k <= 8);
                            out.push(91);
                            out.push(48 + k);
                            out.push(93);
                        }
                    },
                }
            },
        }
        if (i + 1) % w == 0 {
            out.push(10);
        }
        proof {
            assert(out@ =~= render_upto(*b, i + 1));
        }
        i = i + 1;
    }
    out
}

} // verus!
