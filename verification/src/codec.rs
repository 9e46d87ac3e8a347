//! A lossless byte snapshot of a board (and of a game status), compact
//! enough for a small client-held token: a fixed header followed by one
//! byte per cell.
use crate::board::Board;
use crate::board::Cell;
use crate::board::CellContent;
use crate::board::CellVis;
use crate::board::adjacent_mines;
use crate::board::cell_at;
use crate::board::counts_correct;
use crate::board::in_bounds;
use crate::board::lemma_idx;
use crate::engine::GameStatus;
use vstd::prelude::*;

verus! {

/// A snapshot that does not decode to a well-formed board.
#[derive(Clone, Copy, PartialEq, Eq, Structural, Debug)]
pub enum CodecError {
    CorruptState,
}

/// The eight little-endian bytes of a 64-bit value.
pub open spec fn le_bytes(v: u64) -> Seq<u8> {
    seq![
        (v & 0xff) as u8,
        ((v >> 8) & 0xff) as u8,
        ((v >> 16) & 0xff) as u8,
        ((v >> 24) & 0xff) as u8,
        ((v >> 32) & 0xff) as u8,
        ((v >> 40) & 0xff) as u8,
        ((v >> 48) & 0xff) as u8,
        ((v >> 56) & 0xff) as u8,
    ]
}

/// The 64-bit value read back from eight little-endian bytes.
pub open spec fn le_value(s: Seq<u8>) -> u64 {
    (s[0] as u64) | (s[1] as u64) << 8 | (s[2] as u64) << 16 | (s[3] as u64) << 24 | (
    s[4] as u64) << 32 | (s[5] as u64) << 40 | (s[6] as u64) << 48 | (s[7] as u64) << 56
}

proof fn lemma_le_round_trip(v: u64)
    ensures
        le_value(le_bytes(v)) == v,
{
    let b0 = (v & 0xff) as u8;
    let b1 = ((v >> 8) & 0xff) as u8;
    let b2 = ((v >> 16) & 0xff) as u8;
    let b3 = ((v >> 24) & 0xff) as u8;
    let b4 = ((v >> 32) & 0xff) as u8;
    let b5 = ((v >> 40) & 0xff) as u8;
    let b6 = ((v >> 48) & 0xff) as u8;
    let b7 = ((v >> 56) & 0xff) as u8;
    assert((b0 as u64) | (b1 as u64) << 8 | (b2 as u64) << 16 | (b3 as u64) << 24 | (b4 as u64)
        << 32 | (b5 as u64) << 40 | (b6 as u64) << 48 | (b7 as u64) << 56 == v) by (bit_vector)
        requires
            b0 == (v & 0xff) as u8,
            b1 == ((v >> 8) & 0xff) as u8,
            b2 == ((v >> 16) & 0xff) as u8,
            b3 == ((v >> 24) & 0xff) as u8,
            b4 == ((v >> 32) & 0xff) as u8,
            b5 == ((v >> 40) & 0xff) as u8,
            b6 == ((v >> 48) & 0xff) as u8,
            b7 == ((v >> 56) & 0xff) as u8,
    ;
}

/// The byte for one cell: sixteen times the visibility code (closed 0,
/// flagged 1, opened 2) plus the content code (a count 0 through 8, or
/// 9 for a mine).
pub open spec fn encode_cell(c: Cell) -> u8 {
    (spec_vis_code(c.vis) * 16 + spec_content_code(c.content)) as u8
}

pub open spec fn spec_vis_code(v: CellVis) -> u8 {
    match v {
        CellVis::Closed => 0,
        CellVis::Flagged => 1,
        CellVis::Opened => 2,
    }
}

pub open spec fn spec_content_code(c: CellContent) -> u8 {
    match c {
        CellContent::Mine => 9,
        CellContent::Safe(n) => n,
    }
}

/// A cell as the codec can represent it: a safe cell's count fits in
/// one decimal digit. Every cell of a well-formed board qualifies.
pub open spec fn cell_ok(c: Cell) -> bool {
    match c.content {
        CellContent::Safe(n) => n <= 8,
        CellContent::Mine => true,
    }
}

/// The cell a byte decodes to, if any.
pub open spec fn decode_cell(b: u8) -> Option<Cell> {
    if b / 16 <= 2 && b % 16 <= 9 {
        Some(
            Cell {
                vis: if b / 16 == 0 {
                    CellVis::Closed
                } else if b / 16 == 1 {
                    CellVis::Flagged
                } else {
                    CellVis::Opened
                },
                content: if b % 16 == 9 {
                    CellContent::Mine
                } else {
                    CellContent::Safe(b % 16)
                },
            },
        )
    } else {
        None
    }
}

proof fn lemma_cell_round_trip(c: Cell)
    requires
        cell_ok(c),
    ensures
        decode_cell(encode_cell(c)) == Some(c),
{
}

/// One byte per cell, in grid order.
pub open spec fn encode_cells(s: Seq<Cell>) -> Seq<u8>
    decreases s.len(),
{
    if s.len() == 0 {
        Seq::empty()
    } else {
        encode_cells(s.drop_last()).push(encode_cell(s.last()))
    }
}

proof fn lemma_encode_cells_len(s: Seq<Cell>)
    ensures
        encode_cells(s).len() == s.len(),
    decreases s.len(),
{
    if s.len() > 0 {
        lemma_encode_cells_len(s.drop_last());
    }
}

proof fn lemma_encode_cells_index(s: Seq<Cell>, i: int)
    requires
        0 <= i < s.len(),
    ensures
        encode_cells(s).len() == s.len(),
        encode_cells(s)[i] == encode_cell(s[i]),
    decreases s.len(),
{
    lemma_encode_cells_len(s);
    if i < s.len() - 1 {
        lemma_encode_cells_index(s.drop_last(), i);
    } else {
        lemma_encode_cells_len(s.drop_last());
    }
}

/// The full snapshot: width, height, mine count, and seed as 64-bit
/// little-endian values, one flag byte for pending mine placement, then
/// one byte per cell.
pub open spec fn spec_serialize(b: Board) -> Seq<u8> {
    le_bytes(b.width as u64) + le_bytes(b.height as u64) + le_bytes(b.mine_count as u64)
        + le_bytes(b.seed) + seq![
        if b.mines_pending {
            1u8
        } else {
            0u8
        },
    ] + encode_cells(b.cells@)
}

/// What a well-formed board's snapshot looks like, field by field.
proof fn lemma_serialized_shape(b: Board)
    requires
        b.wf(),
    ensures
        spec_serialize(b).len() == 33 + b.cells@.len(),
        b.cells@.len() >= 1,
        le_value(spec_serialize(b).subrange(0, 8)) == b.width as u64,
        le_value(spec_serialize(b).subrange(8, 16)) == b.height as u64,
        le_value(spec_serialize(b).subrange(16, 24)) == b.mine_count as u64,
        le_value(spec_serialize(b).subrange(24, 32)) == b.seed,
        spec_serialize(b)[32] == (if b.mines_pending {
            1u8
        } else {
            0u8
        }),
        forall|i: int|
            0 <= i < b.cells@.len() ==> spec_serialize(b)[33 + i] == encode_cell(
                #[trigger] b.cells@[i],
            ),
{
    lemma_encode_cells_len(b.cells@);
    assert(b.cells@.len() >= 1) by (nonlinear_arith)
        requires
            b.cells@.len() == (b.width as int) * (b.height as int),
            1 <= b.width,
            1 <= b.height,
    ;
    let s = spec_serialize(b);
    assert(s.subrange(0, 8) =~= le_bytes(b.width as u64));
    assert(s.subrange(8, 16) =~= le_bytes(b.height as u64));
    assert(s.subrange(16, 24) =~= le_bytes(b.mine_count as u64));
    assert(s.subrange(24, 32) =~= le_bytes(b.seed));
    lemma_le_round_trip(b.width as u64);
    lemma_le_round_trip(b.height as u64);
    lemma_le_round_trip(b.mine_count as u64);
    lemma_le_round_trip(b.seed);
    assert forall|i: int| 0 <= i < b.cells@.len() implies s[33 + i] == encode_cell(
        #[trigger] b.cells@[i],
    ) by {
        lemma_encode_cells_index(b.cells@, i);
    }
}

/// Every cell of a well-formed board fits the one-byte encoding.
proof fn lemma_wf_cell_ok(b: Board, i: int)
    requires
        b.wf(),
        0 <= i < b.cells@.len(),
    ensures
        cell_ok(b.cells@[i]),
{
    crate::board::lemma_cell_index_coords(b, i);
}

/// Eight bytes survive the trip through their 64-bit value.
proof fn lemma_le_bytes_of_value(s: Seq<u8>)
    requires
        s.len() == 8,
    ensures
        le_bytes(le_value(s)) =~= s,
{
    let b0 = s[0];
    let b1 = s[1];
    let b2 = s[2];
    let b3 = s[3];
    let b4 = s[4];
    let b5 = s[5];
    let b6 = s[6];
    let b7 = s[7];
    let v = le_value(s);
    assert((v & 0xff) as u8 == b0 && ((v >> 8) & 0xff) as u8 == b1 && ((v >> 16) & 0xff) as u8
        == b2 && ((v >> 24) & 0xff) as u8 == b3 && ((v >> 32) & 0xff) as u8 == b4 && ((v >> 40)
        & 0xff) as u8 == b5 && ((v >> 48) & 0xff) as u8 == b6 && ((v >> 56) & 0xff) as u8 == b7)
        by (bit_vector)
        requires
            v == (b0 as u64) | (b1 as u64) << 8 | (b2 as u64) << 16 | (b3 as u64) << 24 | (
            b4 as u64) << 32 | (b5 as u64) << 40 | (b6 as u64) << 48 | (b7 as u64) << 56,
    ;
}

/// A valid cell byte survives the trip through its cell.
proof fn lemma_cell_decode_encode(x: u8)
    requires
        decode_cell(x) is Some,
    ensures
        encode_cell(decode_cell(x).unwrap()) == x,
        cell_ok(decode_cell(x).unwrap()),
{
}

/// Append the eight little-endian bytes of `v`.
fn write_u64(out: &mut Vec<u8>, v: u64)
    ensures
        final(out)@ == old(out)@ + le_bytes(v),
{
    assert(v & 0xff <= 0xff && (v >> 8) & 0xff <= 0xff && (v >> 16) & 0xff <= 0xff && (v >> 24)
        & 0xff <= 0xff && (v >> 32) & 0xff <= 0xff && (v >> 40) & 0xff <= 0xff && (v >> 48) & 0xff
        <= 0xff && (v >> 56) & 0xff <= 0xff) by (bit_vector);
    out.push((v & 0xff) as u8);
    out.push(((v >> 8) & 0xff) as u8);
    out.push(((v >> 16) & 0xff) as u8);
    out.push(((v >> 24) & 0xff) as u8);
    out.push(((v >> 32) & 0xff) as u8);
    out.push(((v >> 40) & 0xff) as u8);
    out.push(((v >> 48) & 0xff) as u8);
    out.push(((v >> 56) & 0xff) as u8);
    proof {
        assert(out@ =~= old(out)@ + le_bytes(v));
    }
}

/// Read the 64-bit value at `off`.
fn read_u64(bytes: &Vec<u8>, off: usize) -> (v: u64)
    requires
        off + 8 <= bytes@.len(),
    ensures
        v == le_value(bytes@.subrange(off as int, off as int + 8)),
{
    let n = bytes.len();
    assert(off + 8 <= n);
    let v = (bytes[off] as u64) | (bytes[off + 1] as u64) << 8u64 | (bytes[off + 2] as u64)
        << 16u64 | (bytes[off + 3] as u64) << 24u64 | (bytes[off + 4] as u64) << 32u64 | (bytes[off
        + 5] as u64) << 40u64 | (bytes[off + 6] as u64) << 48u64 | (bytes[off + 7] as u64)
        << 56u64;
    proof {
        let s = bytes@.subrange(off as int, off as int + 8);
        assert(s[0] == bytes@[off as int] && s[1] == bytes@[off as int + 1] && s[2] == bytes@[
        off as int + 2] && s[3] == bytes@[off as int + 3] && s[4] == bytes@[off as int + 4] && s[5]
            == bytes@[off as int + 5] && s[6] == bytes@[off as int + 6] && s[7] == bytes@[off as int
            + 7]);
    }
    v
}

/// Serialize a board into its byte snapshot.
pub fn serialize(b: &Board) -> (r: Vec<u8>)
    requires
        b.wf(),
    ensures
        r@ == spec_serialize(*b),
{
    let mut out: Vec<u8> = Vec::new();
    write_u64(&mut out, b.width as u64);
    write_u64(&mut out, b.height as u64);
    write_u64(&mut out, b.mine_count as u64);
    write_u64(&mut out, b.seed);
    if b.mines_pending {
        out.push(1);
    } else {
        out.push(0);
    }
    let ghost header: Seq<u8> = out@;
    let n = b.cells.len();
    let mut i: usize = 0;
    while i < n
        invariant
            i <= n,
            n == b.cells@.len(),
            b.wf(),
            out@ == header + encode_cells(b.cells@.take(i as int)),
        decreases n - i,
    {
        let c = b.cells[i];
        proof {
            lemma_wf_cell_ok(*b, i as int);
        }
        let code: u8 = match c.vis {
            CellVis::Closed => 0,
            CellVis::Flagged => 16,
            CellVis::Opened => 32,
        };
        let content_code: u8 = match c.content {
            CellContent::Mine => 9,
            CellContent::Safe(k) => k,
        };
        out.push(code + content_code);
        proof {
            assert(b.cells@.take(i + 1).drop_last() =~= b.cells@.take(i as int));
            assert(b.cells@.take(i + 1).last() == b.cells@[i as int]);
            assert(out@ =~= header + encode_cells(b.cells@.take(i + 1)));
        }
        i = i + 1;
    }
    proof {
        assert(b.cells@.take(n as int) =~= b.cells@);
        assert(out@ =~= spec_serialize(*b));
    }
    out
}

/// Two well-formed boards with the same snapshot are the same board,
/// cell by cell: the snapshot is lossless.
pub proof fn lemma_snapshot_determines_board(b1: Board, b2: Board)
    requires
        b1.wf(),
        b2.wf(),
        spec_serialize(b1) == spec_serialize(b2),
    ensures
        b1.width == b2.width,
        b1.height == b2.height,
        b1.mine_count == b2.mine_count,
        b1.seed == b2.seed,
        b1.mines_pending == b2.mines_pending,
        b1.cells@ == b2.cells@,
{
    lemma_serialized_shape(b1);
    lemma_serialized_shape(b2);
    assert(spec_serialize(b1).subrange(0, 8) == spec_serialize(b2).subrange(0, 8));
    assert(spec_serialize(b1).subrange(8, 16) == spec_serialize(b2).subrange(8, 16));
    assert(spec_serialize(b1).subrange(16, 24) == spec_serialize(b2).subrange(16, 24));
    assert(spec_serialize(b1).subrange(24, 32) == spec_serialize(b2).subrange(24, 32));
    assert(b1.cells@.len() == b2.cells@.len());
    assert forall|i: int| 0 <= i < b1.cells@.len() implies b1.cells@[i] == b2.cells@[i] by {
        lemma_wf_cell_ok(b1, i);
        lemma_wf_cell_ok(b2, i);
        assert(encode_cell(b1.cells@[i]) == encode_cell(b2.cells@[i]));
        lemma_cell_round_trip(b1.cells@[i]);
        lemma_cell_round_trip(b2.cells@[i]);
    }
    assert(b1.cells@ =~= b2.cells@);
}

/// Decode a byte snapshot back into a board.
///
/// Succeeds exactly on the snapshots of well-formed boards: any
/// truncated, oversized, or internally inconsistent input (a count
/// that does not match its neighbors, a wrong mine tally, a stray
/// byte) fails with `CorruptState`, and what is returned on success is
/// well-formed and serializes back to the very same bytes.
#[verifier::rlimit(100)]
pub fn deserialize(bytes: &Vec<u8>) -> (r: Result<Board, CodecError>)
    ensures
        match r {
            Ok(b2) => b2.wf() && spec_serialize(b2) == bytes@,
            Err(_) => forall|b: Board| b.wf() ==> spec_serialize(b) != bytes@,
        },
{
    let total = bytes.len();
    if total < 33 {
        proof {
            assert forall|b: Board| b.wf() implies spec_serialize(b) != bytes@ by {
                if spec_serialize(b) == bytes@ {
                    lemma_serialized_shape(b);
                }
            }
        }
        return Err(CodecError::CorruptState);
    }
    let w64 = read_u64(bytes, 0);
    let h64 = read_u64(bytes, 8);
    let mc64 = read_u64(bytes, 16);
    let seed = read_u64(bytes, 24);
    let flag = bytes[32];
    let ok_header = w64 >= 1 && h64 >= 1 && w64 <= usize::MAX as u64 && h64 <= usize::MAX as u64
        && mc64 <= usize::MAX as u64 && flag <= 1;
    if !ok_header {
        proof {
            assert forall|b: Board| b.wf() implies spec_serialize(b) != bytes@ by {
                if spec_serialize(b) == bytes@ {
                    lemma_serialized_shape(b);
                }
            }
        }
        return Err(CodecError::CorruptState);
    }
    let w = w64 as usize;
    let h = h64 as usize;
    let mc = mc64 as usize;
    let n_opt = w.checked_mul(h);
    let ok_size = match n_opt {
        Some(n) => mc < n && total - 33 == n,
        None => false,
    };
    if !ok_size {
        proof {
            assert forall|b: Board| b.wf() implies spec_serialize(b) != bytes@ by {
                if spec_serialize(b) == bytes@ {
                    lemma_serialized_shape(b);
                    assert(b.width == w && b.height == h && b.mine_count == mc);
                }
            }
        }
        return Err(CodecError::CorruptState);
    }
    let n = match n_opt {
        Some(n) => n,
        None => 0,
    };
    let mut cells: Vec<Cell> = Vec::new();
    let mut i: usize = 0;
    while i < n
        invariant
            i <= n,
            n == w * h,
            total == 33 + n,
            total == bytes@.len(),
            cells@.len() == i,
            forall|j: int|
                0 <= j < i ==> decode_cell(bytes@[33 + j]) == Some(#[trigger] cells@[j]),
        decreases n - i,
    {
        let byte = bytes[33 + i];
        let hi = byte / 16;
        let lo = byte % 16;
        if hi > 2 || lo > 9 {
            proof {
                assert forall|b: Board| b.wf() implies spec_serialize(b) != bytes@ by {
                    if spec_serialize(b) == bytes@ {
                        lemma_serialized_shape(b);
                        assert(bytes@[33 + i] == encode_cell(b.cells@[i as int]));
                        lemma_wf_cell_ok(b, i as int);
                        lemma_cell_round_trip(b.cells@[i as int]);
                    }
                }
            }
            return Err(CodecError::CorruptState);
        }
        let vis = if hi == 0 {
            CellVis::Closed
        } else if hi == 1 {
            CellVis::Flagged
        } else {
            CellVis::Opened
        };
        let content = if lo == 9 {
            CellContent::Mine
        } else {
            CellContent::Safe(lo)
        };
        cells.push(Cell { vis, content });
        i = i + 1;
    }
    let ghost dec: Seq<Cell> = cells@;
    let b2 = Board { width: w, height: h, cells, mines_pending: flag == 1, mine_count: mc, seed };
    proof {
        assert(b2.cells@ == dec);
        assert(forall|j: int|
            0 <= j < n ==> decode_cell(bytes@[33 + j]) == Some(#[trigger] dec[j]));
    }
    proof {
        assert forall|b: Board|
            b.wf() && spec_serialize(b) == bytes@ implies b.width == b2.width && b.height
            == b2.height && b.mine_count == b2.mine_count && b.seed == b2.seed && b.mines_pending
            == b2.mines_pending && b.cells@ == b2.cells@ by {
            lemma_serialized_shape(b);
            assert forall|j: int| 0 <= j < n implies b.cells@[j] == b2.cells@[j] by {
                assert(bytes@[33 + j] == encode_cell(b.cells@[j]));
                lemma_wf_cell_ok(b, j);
                lemma_cell_round_trip(b.cells@[j]);
                assert(decode_cell(bytes@[33 + j]) == Some(dec[j]));
            }
            assert(b.cells@ =~= b2.cells@);
        }
    }
    // Semantic validation: the snapshot must already be a well-formed
    // board, with every stored count exact and the mine tally right.
    let valid = validate(&b2);
    if !valid {
        proof {
            assert forall|b: Board| b.wf() implies spec_serialize(b) != bytes@ by {
                if spec_serialize(b) == bytes@ {
                    crate::board::lemma_count_mines_pointwise(b.cells@, b2.cells@);
                    assert forall|x: int, y: int|
                        in_bounds(b2, x, y) implies adjacent_mines(b2, x, y) == adjacent_mines(
                        b,
                        x,
                        y,
                    ) && cell_at(b2, x, y) == cell_at(b, x, y) by {
                        crate::board::lemma_adjacent_mines_stable(b, b2, x, y);
                        crate::board::lemma_idx(w as int, h as int, x, y);
                    }
                }
            }
        }
        return Err(CodecError::CorruptState);
    }
    proof {
        assert((w64 as usize) as u64 == w64 && (h64 as usize) as u64 == h64 && (mc64 as usize)
            as u64 == mc64);
        lemma_rebuild_bytes(b2, bytes@);
    }
    Ok(b2)
}

/// A well-formed board whose header values and cell bytes all match a
/// byte string serializes to exactly that byte string.
proof fn lemma_rebuild_bytes(b2: Board, bytes: Seq<u8>)
    requires
        b2.wf(),
        bytes.len() == 33 + b2.cells@.len(),
        le_value(bytes.subrange(0, 8)) == b2.width as u64,
        le_value(bytes.subrange(8, 16)) == b2.height as u64,
        le_value(bytes.subrange(16, 24)) == b2.mine_count as u64,
        le_value(bytes.subrange(24, 32)) == b2.seed,
        bytes[32] == (if b2.mines_pending {
            1u8
        } else {
            0u8
        }),
        forall|j: int|
            0 <= j < b2.cells@.len() ==> decode_cell(#[trigger] bytes[33 + j]) == Some(
                b2.cells@[j],
            ),
    ensures
        spec_serialize(b2) == bytes,
{
    let s2 = spec_serialize(b2);
    lemma_serialized_shape(b2);
    lemma_le_bytes_of_value(bytes.subrange(0, 8));
    lemma_le_bytes_of_value(bytes.subrange(8, 16));
    lemma_le_bytes_of_value(bytes.subrange(16, 24));
    lemma_le_bytes_of_value(bytes.subrange(24, 32));
    assert forall|i: int| 0 <= i < bytes.len() implies s2[i] == #[trigger] bytes[i] by {
        if i < 8 {
            assert(s2[i] == le_bytes(b2.width as u64)[i]);
            assert(le_bytes(b2.width as u64)[i] == bytes.subrange(0, 8)[i]);
        } else if i < 16 {
            assert(s2[i] == le_bytes(b2.height as u64)[i - 8]);
            assert(le_bytes(b2.height as u64)[i - 8] == bytes.subrange(8, 16)[i - 8]);
        } else if i < 24 {
            assert(s2[i] == le_bytes(b2.mine_count as u64)[i - 16]);
            assert(le_bytes(b2.mine_count as u64)[i - 16] == bytes.subrange(16, 24)[i - 16]);
        } else if i < 32 {
            assert(s2[i] == le_bytes(b2.seed)[i - 24]);
            assert(le_bytes(b2.seed)[i - 24] == bytes.subrange(24, 32)[i - 24]);
        } else if i == 32 {
        } else {
            assert(decode_cell(bytes[33 + (i - 33)]) == Some(b2.cells@[i - 33]));
            lemma_cell_decode_encode(bytes[i]);
            assert(s2[i] == encode_cell(b2.cells@[i - 33]));
        }
    }
    assert(s2 =~= bytes);
}

/// Whether a candidate board is well-formed: positive size already
/// checked; here every safe cell's count is compared with its true
/// neighbor tally, the mine count with the mine cells, and a pending
/// board is required to be untouched.
fn validate(b: &Board) -> (r: bool)
    requires
        1 <= b.width,
        1 <= b.height,
        b.cells@.len() == (b.width as int) * (b.height as int),
        (b.mine_count as int) < (b.width as int) * (b.height as int),
    ensures
        r == b.wf(),
{
    let n = b.cells.len();
    let w = b.width;
    let h = b.height;
    let mut mines_seen: usize = 0;
    let mut i: usize = 0;
    let mut x: usize = 0;
    let mut y: usize = 0;
    while i < n
        invariant
            i <= n,
            i == y * w + x,
            x < w,
            y <= h,
            y == h ==> x == 0,
            n == b.cells@.len(),
            mines_seen == crate::board::count_mines(b.cells@.take(i as int)),
            mines_seen <= i,
            forall|a: int, c: int|
                in_bounds(*b, a, c) && c * w + a < i ==> match (#[trigger] cell_at(
                    *b,
                    a,
                    c,
                )).content {
                    CellContent::Safe(m) => m as nat == adjacent_mines(*b, a, c),
                    CellContent::Mine => true,
                },
            b.mines_pending ==> forall|j: int|
                0 <= j < i ==> (#[trigger] b.cells@[j]).content == CellContent::Safe(0)
                    && b.cells@[j].vis != CellVis::Opened,
        decreases n - i,
    {
        proof {
            assert(y < h) by {
                if y == h {
                    assert((h as int) * (w as int) == (w as int) * (h as int)) by (nonlinear_arith);
                }
            }
            crate::board::lemma_idx(w as int, h as int, x as int, y as int);
            assert((y + 1) * (w as int) == y * (w as int) + w) by (nonlinear_arith);
            assert(b.cells@.take(i + 1).drop_last() =~= b.cells@.take(i as int));
            assert forall|a: int, c: int|
                in_bounds(*b, a, c) && c * (w as int) + a == i implies a == x as int && c
                == y as int by {
                crate::board::lemma_idx_injective(w as int, h as int, a, c, x as int, y as int);
            }
        }
        let c = b.cell(x, y);
        match c.content {
            CellContent::Safe(m) => {
                let true_count = b.count_adjacent_mines(x, y);
                if m != true_count {
                    return false;
                }
                if b.mines_pending && m != 0 {
                    return false;
                }
            },
            CellContent::Mine => {
                if b.mines_pending {
                    return false;
                }
                mines_seen = mines_seen + 1;
            },
        }
        if b.mines_pending {
            let opened = match c.vis {
                CellVis::Opened => true,
                _ => false,
            };
            if opened {
                return false;
            }
        }
        i = i + 1;
        x = x + 1;
        if x == w {
            x = 0;
            y = y + 1;
        }
    }
    proof {
        assert(b.cells@.take(n as int) =~= b.cells@);
        assert forall|a: int, c: int|
            in_bounds(*b, a, c) implies c * (w as int) + a < n by {
            crate::board::lemma_idx(w as int, h as int, a, c);
        }
    }
    if !b.mines_pending {
        if mines_seen != b.mine_count {
            return false;
        }
    }
    true
}

/// The one-byte encoding of a game status.
pub open spec fn spec_status_byte(s: GameStatus) -> u8 {
    match s {
        GameStatus::InProgress => 0,
        GameStatus::Won => 1,
        GameStatus::Lost => 2,
    }
}

/// Serialize a game status to its single-byte snapshot.
pub fn serialize_status(s: &GameStatus) -> (r: u8)
    ensures
        r == spec_status_byte(*s),
{
    match s {
        GameStatus::InProgress => 0,
        GameStatus::Won => 1,
        GameStatus::Lost => 2,
    }
}

/// Decode a game status byte; anything but the three known codes is
/// corrupt.
pub fn deserialize_status(b: u8) -> (r: Result<GameStatus, CodecError>)
    ensures
        match r {
            Ok(s) => spec_status_byte(s) == b,
            Err(_) => b > 2,
        },
{
    if b == 0 {
        Ok(GameStatus::InProgress)
    } else if b == 1 {
        Ok(GameStatus::Won)
    } else if b == 2 {
        Ok(GameStatus::Lost)
    } else {
        Err(CodecError::CorruptState)
    }
}

} // verus!
