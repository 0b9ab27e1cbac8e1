//! Grids of sixteen-byte tiles and their transposition.

use vstd::prelude::*;
use vstd::arithmetic::div_mod::{
    lemma_fundamental_div_mod,
    lemma_fundamental_div_mod_converse,
    lemma_mod_pos_bound,
};
use crate::error::DecodeError;

verus! {

/// The number of tiles along one side of the grid that a buffer of `len`
/// bytes is taken for. A tile is 16 bytes: eight rows of eight pixels at
/// two bits each. The table of fifteen lengths is the format's own.
///
/// Its first eight lengths are those of the square grids of 1 to 8 tiles a
/// side, `16 * side * side` ([`lemma_grid_side_square`]). The other seven
/// are shorter than the square of their side: 0x490 bytes are 73 tiles,
/// where 9 by 9 are 81. For them the arithmetic of [`wrapped_index`] is no
/// transposition, and from a side of 10 on it leads out of the buffer
/// ([`lemma_fits`]).
pub open spec fn grid_side(len: int) -> Option<int> {
    if len == 0x010 {
        Some(1)
    } else if len == 0x040 {
        Some(2)
    } else if len == 0x090 {
        Some(3)
    } else if len == 0x100 {
        Some(4)
    } else if len == 0x190 {
        Some(5)
    } else if len == 0x240 {
        Some(6)
    } else if len == 0x310 {
        Some(7)
    } else if len == 0x400 {
        Some(8)
    } else if len == 0x490 {
        Some(9)
    } else if len == 0x540 {
        Some(10)
    } else if len == 0x610 {
        Some(11)
    } else if len == 0x700 {
        Some(12)
    } else if len == 0x790 {
        Some(13)
    } else if len == 0x840 {
        Some(14)
    } else if len == 0x910 {
        Some(15)
    } else {
        None
    }
}

/// The side of the square grid that a buffer of `len` bytes holds, for the
/// table's eight lengths that are one.
pub open spec fn square_side(len: int) -> Option<int> {
    match grid_side(len) {
        None => None,
        Some(side) => if side <= 8 {
            Some(side)
        } else {
            None
        },
    }
}

/// The index to which byte `i` of a buffer of `len` bytes goes: the byte
/// offset of its tile is multiplied by `side` and wrapped round the buffer,
/// moving on by one tile for each wrap, and the byte keeps its place within
/// the tile.
pub open spec fn wrapped_index(i: int, side: int, len: int) -> int {
    let j = i / 16 * side * 16;
    j % len + 16 * (j / len) + i % 16
}

/// Whether every byte of a buffer of `len` bytes goes to an index inside
/// the buffer.
pub open spec fn fits(len: int, side: int) -> bool {
    forall|i: int| 0 <= i < len ==> 0 <= #[trigger] wrapped_index(i, side, len) < len
}

/// A buffer of zeros as long as `input` into which the first `count` bytes
/// of `input` have been written in turn, each at the index it goes to.
pub open spec fn scattered(input: Seq<u8>, side: int, count: nat) -> Seq<u8>
    decreases count,
{
    if count == 0 {
        Seq::new(input.len(), |i: int| 0u8)
    } else {
        scattered(input, side, (count - 1) as nat).update(
            wrapped_index(count - 1, side, input.len() as int),
            input[count - 1],
        )
    }
}

/// What transposing `input` gives: every byte written at the index it goes
/// to, where the length is in the table and every byte has a place.
pub open spec fn rearranged(input: Seq<u8>) -> Result<Seq<u8>, DecodeError> {
    match grid_side(input.len() as int) {
        None => Err(DecodeError::InvalidShape),
        Some(side) => if fits(input.len() as int, side) {
            Ok(scattered(input, side, input.len()))
        } else {
            Err(DecodeError::InvalidShape)
        },
    }
}

/// The index at which byte `i` of a square grid of `side` by `side` tiles
/// stands in the transposed grid: the tile in row `r` and column `c`
/// changes places with the one in row `c` and column `r`, and a byte keeps
/// its place within its tile.
pub open spec fn transposed_index(i: int, side: int) -> int {
    let tile = i / 16;
    16 * ((tile % side) * side + tile / side) + i % 16
}

/// A square grid of `side` by `side` tiles, transposed.
pub open spec fn transposed(input: Seq<u8>, side: int) -> Seq<u8> {
    Seq::new(input.len(), |i: int| input[transposed_index(i, side)])
}

/// The table's entries up to a side of 8 are exactly the square grids of
/// that many tiles a side.
pub proof fn lemma_grid_side_square(len: int, side: int)
    ensures
        grid_side(len) == Some(side) && side <= 8 <==> 1 <= side <= 8 && len == 16 * side * side,
        square_side(len) == Some(side) <==> 1 <= side <= 8 && len == 16 * side * side,
{
    if 1 <= side <= 8 {
        lemma_squares(side);
    }
    if grid_side(len) is Some && grid_side(len)->Some_0 <= 8 {
        lemma_squares(grid_side(len)->Some_0);
    }
    if 1 <= side <= 8 && len == 16 * side * side && grid_side(len) != Some(side) {
        let other = grid_side(len)->Some_0;
        assert(other == side) by (nonlinear_arith)
            requires
                16 * other * other == 16 * side * side,
                1 <= other,
                1 <= side,
        ;
    }
}

/// The squares of 1 to 8, times 16.
proof fn lemma_squares(side: int)
    requires
        1 <= side <= 8,
    ensures
        grid_side(16 * side * side) == Some(side),
        16 * side * side <= 0x400,
{
    assert(16 * side * side == 16 * (side * side)) by (nonlinear_arith);
    if side == 1 {
        assert(side * side == 1) by (nonlinear_arith)
            requires
                side == 1,
        ;
    } else if side == 2 {
        assert(side * side == 4) by (nonlinear_arith)
            requires
                side == 2,
        ;
    } else if side == 3 {
        assert(side * side == 9) by (nonlinear_arith)
            requires
                side == 3,
        ;
    } else if side == 4 {
        assert(side * side == 16) by (nonlinear_arith)
            requires
                side == 4,
        ;
    } else if side == 5 {
        assert(side * side == 25) by (nonlinear_arith)
            requires
                side == 5,
        ;
    } else if side == 6 {
        assert(side * side == 36) by (nonlinear_arith)
            requires
                side == 6,
        ;
    } else if side == 7 {
        assert(side * side == 49) by (nonlinear_arith)
            requires
                side == 7,
        ;
    } else {
        assert(side * side == 64) by (nonlinear_arith)
            requires
                side == 8,
        ;
    }
}

/// In a square grid every byte goes to a place in the grid, that place is
/// where transposition puts it, and going twice brings a byte back.
pub proof fn lemma_transposed_index(i: int, side: int)
    requires
        1 <= side,
        0 <= i < 16 * side * side,
    ensures
        0 <= transposed_index(i, side) < 16 * side * side,
        wrapped_index(i, side, 16 * side * side) == transposed_index(i, side),
        transposed_index(transposed_index(i, side), side) == i,
{
    let len = 16 * side * side;
    let tile = i / 16;
    let k = i % 16;
    let r = tile / side;
    let c = tile % side;
    assert(0 <= tile < side * side) by (nonlinear_arith)
        requires
            0 <= i < 16 * side * side,
            tile == i / 16,
    ;
    lemma_fundamental_div_mod(tile, side);
    lemma_mod_pos_bound(tile, side);
    assert(0 <= r < side) by (nonlinear_arith)
        requires
            tile == side * r + c,
            0 <= c < side,
            0 <= tile < side * side,
    ;
    let m = c * side + r;
    assert(0 <= m < side * side && 0 <= 16 * c * side < 16 * side * side) by (nonlinear_arith)
        requires
            m == c * side + r,
            0 <= c < side,
            0 <= r < side,
    ;
    let t = transposed_index(i, side);
    assert(t == 16 * m + k);
    assert(16 * m + k < 16 * side * side) by (nonlinear_arith)
        requires
            0 <= m < side * side,
            0 <= k < 16,
    ;
    lemma_fundamental_div_mod_converse(m, side, c, r);
    assert(transposed_index(t, side) == 16 * (r * side + c) + k);
    assert(r * side + c == tile) by (nonlinear_arith)
        requires
            tile == side * r + c,
    ;
    let j = tile * side * 16;
    assert(j == r * len + 16 * c * side) by (nonlinear_arith)
        requires
            j == tile * side * 16,
            tile == side * r + c,
            len == 16 * side * side,
    ;
    lemma_fundamental_div_mod_converse(j, len, r, 16 * c * side);
    assert(16 * c * side + 16 * r == 16 * m) by (nonlinear_arith)
        requires
            m == c * side + r,
    ;
}

/// Writing the first `count` bytes of a square grid at the indices they go
/// to fills exactly the places of the transposed grid that take one of
/// them.
proof fn lemma_scattered_prefix(input: Seq<u8>, side: int, count: nat)
    requires
        1 <= side,
        input.len() == 16 * side * side,
        count <= input.len(),
    ensures
        scattered(input, side, count).len() == input.len(),
        forall|o: int|
            0 <= o < input.len() ==> #[trigger] scattered(input, side, count)[o] == if
                transposed_index(o, side) < count {
                input[transposed_index(o, side)]
            } else {
                0u8
            },
    decreases count,
{
    if count > 0 {
        lemma_scattered_prefix(input, side, (count - 1) as nat);
        let earlier = scattered(input, side, (count - 1) as nat);
        lemma_transposed_index(count - 1, side);
        let target = transposed_index(count - 1, side);
        assert forall|o: int| 0 <= o < input.len() implies #[trigger] scattered(
            input,
            side,
            count,
        )[o] == if transposed_index(o, side) < count {
            input[transposed_index(o, side)]
        } else {
            0u8
        } by {
            lemma_transposed_index(o, side);
            assert(earlier[o] == if transposed_index(o, side) < count - 1 {
                input[transposed_index(o, side)]
            } else {
                0u8
            });
        }
    }
}

/// On a square grid the format's arithmetic is transposition.
pub proof fn lemma_rearranged_square(input: Seq<u8>, side: int)
    requires
        1 <= side <= 8,
        input.len() == 16 * side * side,
    ensures
        rearranged(input) == Ok::<Seq<u8>, DecodeError>(transposed(input, side)),
{
    let len = input.len() as int;
    lemma_grid_side_square(len, side);
    assert forall|i: int| 0 <= i < len implies 0 <= #[trigger] wrapped_index(i, side, len)
        < len by {
        lemma_transposed_index(i, side);
    }
    lemma_scattered_prefix(input, side, input.len());
    assert forall|o: int| 0 <= o < len implies scattered(input, side, input.len())[o]
        == transposed(input, side)[o] by {
        lemma_transposed_index(o, side);
    }
    assert(scattered(input, side, input.len()) =~= transposed(input, side));
}

/// Of the lengths in the table, those up to a side of 9 give every byte a
/// place. With a side of 10 or more some byte would go beyond the end of
/// the buffer.
pub proof fn lemma_fits(len: int, side: int)
    requires
        grid_side(len) == Some(side),
    ensures
        fits(len, side) <==> side <= 9,
{
    if side <= 8 {
        lemma_grid_side_square(len, side);
        assert forall|i: int| 0 <= i < len implies 0 <= #[trigger] wrapped_index(i, side, len)
            < len by {
            lemma_transposed_index(i, side);
        }
    } else if side == 9 {
        assert forall|i: int| 0 <= i < 0x490 implies 0 <= #[trigger] wrapped_index(i, 9, 0x490)
            < 0x490 by {
            // With w wraps, 73 * w <= 9 * tile < 73 * (w + 1), so the tile
            // is at most 8 * w + 8, and the byte lands in tile 9 * tile -
            // 72 * w, which is at most 72.
            let tile = i / 16;
            let wraps = tile * 144 / 0x490;
            assert(tile * 144 % 0x490 == tile * 144 - wraps * 0x490);
            assert(tile <= 8 * wraps + 8);
        }
    } else if side == 10 {
        assert(wrapped_index(400, 10, 0x540) >= 0x540);
    } else if side == 11 {
        assert(wrapped_index(560, 11, 0x610) >= 0x610);
    } else if side == 12 {
        assert(wrapped_index(1040, 12, 0x700) >= 0x700);
    } else if side == 13 {
        assert(wrapped_index(592, 13, 0x790) >= 0x790);
    } else if side == 14 {
        assert(wrapped_index(752, 14, 0x840) >= 0x840);
    } else {
        assert(wrapped_index(1232, 15, 0x910) >= 0x910);
    }
}

/// Writing bytes at places inside the buffer does not change its length.
pub proof fn lemma_scattered_len(input: Seq<u8>, side: int, count: nat)
    requires
        fits(input.len() as int, side),
        count <= input.len(),
    ensures
        scattered(input, side, count).len() == input.len(),
    decreases count,
{
    if count > 0 {
        lemma_scattered_len(input, side, (count - 1) as nat);
        assert(0 <= wrapped_index(count - 1, side, input.len() as int) < input.len());
    }
}

/// A buffer can be transposed exactly where its length is one of the first
/// nine of the table, and what comes out is as long as what went in.
pub proof fn lemma_rearranged(input: Seq<u8>)
    ensures
        rearranged(input) is Ok <==> (grid_side(input.len() as int) matches Some(side) && side
            <= 9),
        rearranged(input) matches Ok(grid) ==> grid.len() == input.len(),
        rearranged(input) matches Err(e) ==> e == DecodeError::InvalidShape,
{
    if grid_side(input.len() as int) is Some {
        let side = grid_side(input.len() as int)->Some_0;
        lemma_fits(input.len() as int, side);
        if side <= 9 {
            lemma_scattered_len(input, side, input.len());
        }
    }
}

/// Transposing a square grid twice gives the grid back.
pub proof fn lemma_transposed_twice(input: Seq<u8>, side: int)
    requires
        1 <= side,
        input.len() == 16 * side * side,
    ensures
        transposed(transposed(input, side), side) == input,
{
    assert forall|i: int| 0 <= i < input.len() implies transposed(transposed(input, side), side)[i]
        == input[i] by {
        lemma_transposed_index(i, side);
    }
    assert(transposed(transposed(input, side), side) =~= input);
}

/// A grid of one tile is its own transpose.
pub proof fn lemma_rearranged_single_tile(input: Seq<u8>)
    requires
        input.len() == 16,
    ensures
        rearranged(input) == Ok::<Seq<u8>, DecodeError>(input),
{
    lemma_rearranged_square(input, 1);
    assert(transposed(input, 1) =~= input);
}

} // verus!
