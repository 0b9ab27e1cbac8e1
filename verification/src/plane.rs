//! What a first-generation stream says about one bit plane: the run-length
//! fill, the order of its bytes, and the differential transform that is taken
//! off it afterwards.

use vstd::prelude::*;
use crate::bitstream::{
    bit_at,
    bits_value,
    code_end,
    code_value,
    lemma_bits_value_same,
    lemma_code_same,
    lemma_code_value_positive,
    lemma_same_bits_later,
    lemma_same_bits_part,
    same_bits,
};

verus! {

/// For each carry (the row) and each stored nibble (the column), the
/// nibble that it decodes to. The decoder only ever selects rows 0 and 1,
/// since a carry is a single bit. Rows 2 and 3 hold the same nibbles read
/// from their other end, and each odd row is the row before it with all
/// four bits flipped: see [`lemma_table_undoes_difference`] and
/// [`lemma_table_rows`].
pub const INV_XOR_TABLE: [[u8; 16]; 4] = [
    [0x0, 0x1, 0x3, 0x2, 0x7, 0x6, 0x4, 0x5, 0xf, 0xe, 0xc, 0xd, 0x8, 0x9, 0xb, 0xa],
    [0xf, 0xe, 0xc, 0xd, 0x8, 0x9, 0xb, 0xa, 0x0, 0x1, 0x3, 0x2, 0x7, 0x6, 0x4, 0x5],
    [0x0, 0x8, 0xc, 0x4, 0xe, 0x6, 0x2, 0xa, 0xf, 0x7, 0x3, 0xb, 0x1, 0x9, 0xd, 0x5],
    [0xf, 0x7, 0x3, 0xb, 0x1, 0x9, 0xd, 0x5, 0x0, 0x8, 0xc, 0x4, 0xe, 0x6, 0x2, 0xa],
];

/// The number of bytes in one plane of `width` by `height` tiles: a row of
/// the plane is eight bytes for each tile across.
pub open spec fn plane_len(width: int, height: int) -> int {
    width * 8 * height
}

/// Where the fill of a plane stands: the index of the next unread bit, how
/// many zero groups are still owed by the current run, and the two-bit
/// groups produced so far.
pub struct FillState {
    pub pos: int,
    pub zeros: int,
    pub groups: Seq<u8>,
}

/// The state in which the fill at bit `pos` begins. A set bit there starts
/// it with no run pending; a clear bit is followed by the length of a
/// first run of zero groups. `None` where the input ends too early.
pub open spec fn fill_start(data: Seq<u8>, pos: int) -> Option<FillState> {
    if pos < 0 || pos >= 8 * data.len() {
        None
    } else if bit_at(data, pos) {
        Some(FillState { pos: pos + 1, zeros: 0, groups: Seq::empty() })
    } else if code_end(data, pos + 1) > 8 * data.len() {
        None
    } else {
        Some(
            FillState {
                pos: code_end(data, pos + 1),
                zeros: code_value(data, pos + 1) as int,
                groups: Seq::empty(),
            },
        )
    }
}

/// The state after one more group. A pending run yields a zero group.
/// Otherwise two bits are read: a non-zero pair is the group itself, and a
/// zero pair is followed by the length of a run that this group is the
/// first of.
pub open spec fn fill_step(data: Seq<u8>, s: FillState) -> Option<FillState> {
    if s.zeros > 0 {
        Some(FillState { pos: s.pos, zeros: s.zeros - 1, groups: s.groups.push(0) })
    } else if s.pos + 2 > 8 * data.len() {
        None
    } else if bits_value(data, s.pos, 2) != 0 {
        Some(
            FillState {
                pos: s.pos + 2,
                zeros: 0,
                groups: s.groups.push(bits_value(data, s.pos, 2) as u8),
            },
        )
    } else if code_end(data, s.pos + 2) > 8 * data.len() {
        None
    } else {
        Some(
            FillState {
                pos: code_end(data, s.pos + 2),
                zeros: code_value(data, s.pos + 2) - 1,
                groups: s.groups.push(0),
            },
        )
    }
}

/// The state `count` groups after `s`.
pub open spec fn fill_run(data: Seq<u8>, s: FillState, count: nat) -> Option<FillState>
    decreases count,
{
    if count == 0 {
        Some(s)
    } else {
        match fill_run(data, s, (count - 1) as nat) {
            None => None,
            Some(t) => fill_step(data, t),
        }
    }
}

/// The byte that holds four groups, the first in its two highest bits.
pub open spec fn pack4(g0: u8, g1: u8, g2: u8, g3: u8) -> u8 {
    (64 * g0 + 16 * g1 + 4 * g2 + g3) as u8
}

/// The group in slot `slot` of `byte`, slot 0 being the two highest bits.
pub open spec fn group_of(byte: u8, slot: int) -> u8 {
    if slot == 0 {
        byte / 64
    } else if slot == 1 {
        byte / 16 % 4
    } else if slot == 2 {
        byte / 4 % 4
    } else {
        byte % 4
    }
}

/// The bytes that hold `groups`, four to a byte in the order they came.
pub open spec fn packed(groups: Seq<u8>) -> Seq<u8> {
    Seq::new(
        groups.len() / 4,
        |j: int| pack4(groups[4 * j], groups[4 * j + 1], groups[4 * j + 2], groups[4 * j + 3]),
    )
}

/// Byte `i` of a plane in row-major order, gathered from the plane as it
/// was filled. Each filled row of `8 * width` bytes is four runs of `2 *
/// width` bytes; byte `col` of the row takes the group in slot `col % 4` of
/// byte `col / 4` of each run, the first run giving its highest two bits.
pub open spec fn deinterlaced_byte(src: Seq<u8>, width: int, i: int) -> u8 {
    let row = i / (8 * width);
    let col = i % (8 * width);
    let from = row * (8 * width) + col / 4;
    let slot = col % 4;
    pack4(
        group_of(src[from], slot),
        group_of(src[from + 2 * width], slot),
        group_of(src[from + 4 * width], slot),
        group_of(src[from + 6 * width], slot),
    )
}

/// The plane in row-major order.
pub open spec fn deinterlaced(src: Seq<u8>, width: int) -> Seq<u8> {
    Seq::new(src.len(), |i: int| deinterlaced_byte(src, width, i))
}

/// The `size` bytes of a plane as its fill at bit `pos` leaves them, and
/// the index of the first bit after the fill. `None` where the input ends
/// before the plane is full.
pub open spec fn filled_at(data: Seq<u8>, pos: int, size: int) -> Option<(Seq<u8>, int)> {
    match fill_start(data, pos) {
        None => None,
        Some(start) => match fill_run(data, start, (4 * size) as nat) {
            None => None,
            Some(end) => Some((packed(end.groups), end.pos)),
        },
    }
}

/// The plane of `width` by `height` tiles whose fill begins at bit `pos`,
/// in row-major order, and the index of the first bit after it.
pub open spec fn plane_at(data: Seq<u8>, pos: int, width: int, height: int) -> Option<
    (Seq<u8>, int),
> {
    match filled_at(data, pos, plane_len(width, height)) {
        None => None,
        Some((bytes, end)) => Some((deinterlaced(bytes, width), end)),
    }
}

/// Byte `i` of a plane with the differential transform taken off. The two
/// nibbles of a byte are decoded high one first, each through the table row
/// that the lowest bit of the nibble decoded before it selects. The nibble
/// before the high one is the low nibble of the byte one row up (`stride`
/// bytes back), and in the top row nothing: there the carry is 0.
pub open spec fn unxored_byte(ram: Seq<u8>, stride: int, i: int) -> u8
    decreases i,
{
    let carry: int = if stride <= 0 || i < stride {
        0
    } else {
        unxored_byte(ram, stride, i - stride) as int % 2
    };
    let high = INV_XOR_TABLE[carry][ram[i] as int / 16];
    let low = INV_XOR_TABLE[high as int % 2][ram[i] as int % 16];
    (16 * high + low) as u8
}

/// A plane with the differential transform taken off.
pub open spec fn unxored(ram: Seq<u8>, stride: int) -> Seq<u8> {
    Seq::new(ram.len(), |i: int| unxored_byte(ram, stride, i))
}

/// `ram1` with each byte combined by exclusive or with the byte of `ram0`
/// at the same index.
pub open spec fn xored(ram0: Seq<u8>, ram1: Seq<u8>) -> Seq<u8> {
    Seq::new(ram1.len(), |i: int| ram1[i] ^ ram0[i])
}

/// The two planes taken in turn: `first[0]`, `second[0]`, `first[1]`, and
/// so on.
pub open spec fn interleaved(first: Seq<u8>, second: Seq<u8>) -> Seq<u8> {
    Seq::new(
        2 * first.len(),
        |i: int| if i % 2 == 0 {
            first[i / 2]
        } else {
            second[i / 2]
        },
    )
}

/// The mode that is coded at bit `pos`, and the index of the first bit after
/// it: a clear bit is mode 0, a set bit followed by a clear one mode 1,
/// two set bits mode 2.
pub open spec fn mode_at(data: Seq<u8>, pos: int) -> Option<(int, int)> {
    if pos < 0 || pos >= 8 * data.len() {
        None
    } else if !bit_at(data, pos) {
        Some((0, pos + 1))
    } else if pos + 1 >= 8 * data.len() {
        None
    } else if !bit_at(data, pos + 1) {
        Some((1, pos + 2))
    } else {
        Some((2, pos + 2))
    }
}

/// The second plane as the mode leaves it, given both planes as they were
/// filled. The first plane always has its transform taken off. In mode 0 so
/// has the second; in mode 1 the second is combined with the finished
/// first as it stands; in mode 2 it has its own transform taken off before
/// it is combined with the finished first.
pub open spec fn second_plane(mode: int, raw0: Seq<u8>, raw1: Seq<u8>, stride: int) -> Seq<u8> {
    if mode == 0 {
        unxored(raw1, stride)
    } else if mode == 1 {
        xored(unxored(raw0, stride), raw1)
    } else {
        xored(unxored(raw0, stride), unxored(raw1, stride))
    }
}

/// What follows the bit that orders the planes: the first plane as it was
/// filled, the mode, the second plane as it was filled, and the index of
/// the first bit after them.
pub open spec fn planes_at(data: Seq<u8>, pos: int, width: int, height: int) -> Option<
    (Seq<u8>, int, Seq<u8>, int),
> {
    match plane_at(data, pos, width, height) {
        None => None,
        Some((raw0, after_first)) => match mode_at(data, after_first) {
            None => None,
            Some((mode, after_mode)) => match plane_at(data, after_mode, width, height) {
                None => None,
                Some((raw1, end)) => Some((raw0, mode, raw1, end)),
            },
        },
    }
}

/// The image that the stream spells from bit `pos` on, for planes of
/// `width` by `height` tiles, and the index of the first bit after it. One
/// bit says whether the planes change places in the result; the first plane,
/// the mode and the second plane follow.
pub open spec fn image_at(data: Seq<u8>, pos: int, width: int, height: int) -> Option<
    (Seq<u8>, int),
> {
    if pos < 0 || pos >= 8 * data.len() {
        None
    } else {
        match planes_at(data, pos + 1, width, height) {
            None => None,
            Some((raw0, mode, raw1, end)) => {
                let plane0 = unxored(raw0, 8 * width);
                let plane1 = second_plane(mode, raw0, raw1, 8 * width);
                Some(
                    (
                        if bit_at(data, pos) {
                            interleaved(plane1, plane0)
                        } else {
                            interleaved(plane0, plane1)
                        },
                        end,
                    ),
                )
            },
        }
    }
}

/// The nibble whose bits are stored as `nibble` when each bit is stored
/// as its difference from the bit before it, the bit before the highest
/// being `carry`: from the top down, each bit of the result is the stored
/// bit, changed where the bit before it in the result is set.
pub open spec fn undifferenced(carry: int, nibble: int) -> int {
    let b3 = (nibble / 8 + carry) % 2;
    let b2 = (nibble / 4 % 2 + b3) % 2;
    let b1 = (nibble / 2 % 2 + b2) % 2;
    let b0 = (nibble % 2 + b1) % 2;
    8 * b3 + 4 * b2 + 2 * b1 + b0
}

/// The nibble `x` read from its other end.
pub open spec fn mirrored_nibble(x: int) -> int {
    x % 2 * 8 + x / 2 % 2 * 4 + x / 4 % 2 * 2 + x / 8
}

/// Every entry of the table is a nibble.
pub proof fn lemma_table_nibble(row: int, col: int)
    requires
        0 <= row < 4,
        0 <= col < 16,
    ensures
        INV_XOR_TABLE[row][col] < 16,
{
}

/// Rows 0 and 1 of the table take the difference coding off a nibble, for
/// a carry of 0 and of 1.
pub proof fn lemma_table_undoes_difference(carry: int, nibble: int)
    requires
        0 <= carry < 2,
        0 <= nibble < 16,
    ensures
        INV_XOR_TABLE[carry][nibble] == undifferenced(carry, nibble),
{
}

/// Each odd row of the table is the row before it with all four bits
/// flipped, and rows 2 and 3 hold the entries of rows 0 and 1 read from
/// their other end.
pub proof fn lemma_table_rows(nibble: int)
    requires
        0 <= nibble < 16,
    ensures
        INV_XOR_TABLE[1][nibble] == 15 - INV_XOR_TABLE[0][nibble],
        INV_XOR_TABLE[3][nibble] == 15 - INV_XOR_TABLE[2][nibble],
        INV_XOR_TABLE[2][nibble] == mirrored_nibble(INV_XOR_TABLE[0][nibble] as int),
        INV_XOR_TABLE[3][nibble] == mirrored_nibble(INV_XOR_TABLE[1][nibble] as int),
{
}

/// A fill that cannot produce some number of groups cannot produce more.
pub proof fn lemma_fill_run_fails(data: Seq<u8>, start: FillState, count: nat, more: nat)
    requires
        fill_run(data, start, count) is None,
        count <= more,
    ensures
        fill_run(data, start, more) is None,
    decreases more,
{
    if count < more {
        lemma_fill_run_fails(data, start, count, (more - 1) as nat);
    }
}

/// A fill of `count` groups adds `count` groups.
pub proof fn lemma_fill_run_len(data: Seq<u8>, start: FillState, count: nat)
    ensures
        fill_run(data, start, count) matches Some(end) ==> end.groups.len() == start.groups.len()
            + count,
    decreases count,
{
    if count > 0 {
        lemma_fill_run_len(data, start, (count - 1) as nat);
    }
}

/// A fill of one group or more is its first step and then the fill of the
/// rest.
pub proof fn lemma_fill_run_first(data: Seq<u8>, start: FillState, count: nat)
    requires
        count >= 1,
    ensures
        fill_run(data, start, count) == match fill_step(data, start) {
            None => None,
            Some(next) => fill_run(data, next, (count - 1) as nat),
        },
    decreases count,
{
    if count > 1 {
        lemma_fill_run_first(data, start, (count - 1) as nat);
        match fill_step(data, start) {
            None => {},
            Some(next) => {
                assert(fill_run(data, next, (count - 1) as nat) == match fill_run(
                    data,
                    next,
                    (count - 2) as nat,
                ) {
                    None => None,
                    Some(t) => fill_step(data, t),
                });
            },
        }
    } else {
        assert(fill_run(data, start, 0) == Some(start));
        match fill_step(data, start) {
            None => {},
            Some(next) => {
                assert(fill_run(data, next, 0) == Some(next));
            },
        }
    }
}

/// A plane that begins with a zero group can be coded in two ways, and both
/// stand for the same plane: with the flag set, as a zero pair followed by
/// a run length, or with the flag clear, as that run length alone. So
/// where the bits at `pos` are set, clear, clear, the plane that is read
/// from `pos` is the plane that is read from two bits further on, where the
/// second clear bit is taken for the flag.
pub proof fn lemma_fill_from_zero_group(data: Seq<u8>, pos: int, size: int)
    requires
        0 <= pos,
        pos + 3 <= 8 * data.len(),
        bit_at(data, pos),
        !bit_at(data, pos + 1),
        !bit_at(data, pos + 2),
        size >= 1,
    ensures
        filled_at(data, pos, size) == filled_at(data, pos + 2, size),
{
    let count = (4 * size) as nat;
    let flagged = FillState { pos: pos + 1, zeros: 0, groups: Seq::empty() };
    assert(fill_start(data, pos) == Some(flagged));
    assert(bits_value(data, pos + 1, 2) == 0) by {
        reveal_with_fuel(bits_value, 3);
    }
    lemma_fill_run_first(data, flagged, count);
    if code_end(data, pos + 3) > 8 * data.len() {
        assert(fill_step(data, flagged) is None);
        assert(fill_start(data, pos + 2) is None);
    } else {
        let counted = FillState {
            pos: code_end(data, pos + 3),
            zeros: code_value(data, pos + 3) as int,
            groups: Seq::empty(),
        };
        assert(fill_start(data, pos + 2) == Some(counted));
        lemma_code_value_positive(data, pos + 3);
        lemma_fill_run_first(data, counted, count);
        assert(fill_step(data, flagged) == fill_step(data, counted));
    }
}

/// A fill only moves forward, and never beyond the end of the input.
pub proof fn lemma_fill_run_pos(data: Seq<u8>, start: FillState, count: nat)
    requires
        start.pos <= 8 * data.len(),
    ensures
        fill_run(data, start, count) matches Some(end) ==> start.pos <= end.pos <= 8 * data.len(),
    decreases count,
{
    if count > 0 {
        lemma_fill_run_pos(data, start, (count - 1) as nat);
    }
}

/// The state `s` of a fill, for a stream that holds the same bits `shift`
/// places later.
pub open spec fn moved(s: FillState, shift: int) -> FillState {
    FillState { pos: s.pos + shift, zeros: s.zeros, groups: s.groups }
}

/// One step of a fill is decided by the bits that it reads.
pub proof fn lemma_fill_step_same(a: Seq<u8>, b: Seq<u8>, s: FillState, shift: int, n: int)
    requires
        same_bits(a, s.pos, b, s.pos + shift, n),
        fill_step(a, s) is Some,
        fill_step(a, s)->Some_0.pos <= s.pos + n,
    ensures
        fill_step(b, moved(s, shift)) == Some(moved(fill_step(a, s)->Some_0, shift)),
{
    if s.zeros <= 0 {
        lemma_bits_value_same(a, s.pos, b, s.pos + shift, n, 2);
        if bits_value(a, s.pos, 2) == 0 {
            lemma_same_bits_later(a, s.pos, b, s.pos + shift, n, 2);
            lemma_code_same(a, s.pos + 2, b, s.pos + shift + 2, n - 2);
        }
    }
}

/// A fill is decided by the bits that it reads.
pub proof fn lemma_fill_run_same(
    a: Seq<u8>,
    b: Seq<u8>,
    s: FillState,
    shift: int,
    n: int,
    count: nat,
)
    requires
        same_bits(a, s.pos, b, s.pos + shift, n),
        fill_run(a, s, count) is Some,
        fill_run(a, s, count)->Some_0.pos <= s.pos + n,
    ensures
        fill_run(b, moved(s, shift), count) == Some(moved(fill_run(a, s, count)->Some_0, shift)),
    decreases count,
{
    if count > 0 {
        let t = fill_run(a, s, (count - 1) as nat)->Some_0;
        lemma_fill_run_pos(a, s, (count - 1) as nat);
        assert(fill_run(a, t, 1) == fill_step(a, t)) by {
            reveal_with_fuel(fill_run, 2);
        }
        lemma_fill_run_pos(a, t, 1);
        lemma_fill_run_same(a, b, s, shift, n, (count - 1) as nat);
        lemma_same_bits_later(a, s.pos, b, s.pos + shift, n, t.pos - s.pos);
        lemma_fill_step_same(a, b, t, shift, n - (t.pos - s.pos));
    }
}

/// A filled plane is decided by the bits that its fill reads.
pub proof fn lemma_filled_at_same(a: Seq<u8>, p: int, b: Seq<u8>, q: int, size: int)
    requires
        filled_at(a, p, size) is Some,
        same_bits(a, p, b, q, filled_at(a, p, size)->Some_0.1 - p),
    ensures
        filled_at(b, q, size) == Some(
            (filled_at(a, p, size)->Some_0.0, filled_at(a, p, size)->Some_0.1 + q - p),
        ),
{
    let n = filled_at(a, p, size)->Some_0.1 - p;
    let start = fill_start(a, p)->Some_0;
    lemma_fill_run_pos(a, start, (4 * size) as nat);
    assert(bit_at(a, p) == bit_at(b, p - p + q));
    lemma_same_bits_later(a, p, b, q, n, 1);
    if !bit_at(a, p) {
        lemma_code_same(a, p + 1, b, q + 1, n - 1);
    }
    assert(fill_start(b, q) == Some(moved(start, q - p)));
    lemma_same_bits_later(a, p, b, q, n, start.pos - p);
    lemma_fill_run_same(a, b, start, q - p, n - (start.pos - p), (4 * size) as nat);
}

/// A filled plane ends after its first bit and inside the input.
pub proof fn lemma_filled_at_pos(data: Seq<u8>, pos: int, size: int)
    ensures
        filled_at(data, pos, size) matches Some((bytes, end)) ==> 0 <= pos < end <= 8
            * data.len(),
{
    match fill_start(data, pos) {
        None => {},
        Some(start) => {
            lemma_fill_run_pos(data, start, (4 * size) as nat);
        },
    }
}

/// A mode is decided by the bits that spell it.
pub proof fn lemma_mode_at_same(a: Seq<u8>, p: int, b: Seq<u8>, q: int)
    requires
        mode_at(a, p) is Some,
        same_bits(a, p, b, q, mode_at(a, p)->Some_0.1 - p),
    ensures
        mode_at(b, q) == Some((mode_at(a, p)->Some_0.0, mode_at(a, p)->Some_0.1 + q - p)),
{
    assert(bit_at(a, p) == bit_at(b, p - p + q));
    if bit_at(a, p) {
        assert(bit_at(a, p + 1) == bit_at(b, p + 1 - p + q));
    }
}

/// The planes end after their first bit and inside the input.
pub proof fn lemma_planes_at_pos(data: Seq<u8>, pos: int, width: int, height: int)
    ensures
        planes_at(data, pos, width, height) matches Some((raw0, mode, raw1, end)) ==> 0 <= pos
            < end <= 8 * data.len(),
{
    if planes_at(data, pos, width, height) is Some {
        let size = plane_len(width, height);
        let after_first = plane_at(data, pos, width, height)->Some_0.1;
        let after_mode = mode_at(data, after_first)->Some_0.1;
        lemma_filled_at_pos(data, pos, size);
        lemma_filled_at_pos(data, after_mode, size);
    }
}

/// The planes and the mode between them are decided by the bits that are
/// read for them.
pub proof fn lemma_planes_at_same(
    a: Seq<u8>,
    p: int,
    b: Seq<u8>,
    q: int,
    width: int,
    height: int,
)
    requires
        planes_at(a, p, width, height) is Some,
        same_bits(a, p, b, q, planes_at(a, p, width, height)->Some_0.3 - p),
    ensures
        planes_at(b, q, width, height) == Some(
            (
                planes_at(a, p, width, height)->Some_0.0,
                planes_at(a, p, width, height)->Some_0.1,
                planes_at(a, p, width, height)->Some_0.2,
                planes_at(a, p, width, height)->Some_0.3 + q - p,
            ),
        ),
{
    let size = plane_len(width, height);
    let n = planes_at(a, p, width, height)->Some_0.3 - p;
    let after_first = plane_at(a, p, width, height)->Some_0.1;
    let after_mode = mode_at(a, after_first)->Some_0.1;
    lemma_filled_at_pos(a, p, size);
    lemma_filled_at_pos(a, after_mode, size);
    lemma_same_bits_part(a, p, b, q, n, 0, after_first - p);
    lemma_filled_at_same(a, p, b, q, size);
    lemma_same_bits_part(a, p, b, q, n, after_first - p, after_mode - after_first);
    lemma_mode_at_same(a, after_first, b, after_first + q - p);
    lemma_same_bits_later(a, p, b, q, n, after_mode - p);
    lemma_filled_at_same(a, after_mode, b, after_mode + q - p, size);
}

/// An image is decided by the bits that are read for it: a stream that
/// holds the same bits, at whatever place and whatever may follow them,
/// holds the same image.
pub proof fn lemma_image_at_same(a: Seq<u8>, p: int, b: Seq<u8>, q: int, width: int, height: int)
    requires
        image_at(a, p, width, height) is Some,
        same_bits(a, p, b, q, image_at(a, p, width, height)->Some_0.1 - p),
    ensures
        image_at(b, q, width, height) == Some(
            (
                image_at(a, p, width, height)->Some_0.0,
                image_at(a, p, width, height)->Some_0.1 + q - p,
            ),
        ),
{
    let n = image_at(a, p, width, height)->Some_0.1 - p;
    lemma_planes_at_pos(a, p + 1, width, height);
    assert(bit_at(a, p) == bit_at(b, p - p + q));
    lemma_same_bits_later(a, p, b, q, n, 1);
    lemma_planes_at_same(a, p + 1, b, q + 1, width, height);
}

/// A filled plane has the size that was asked for.
pub proof fn lemma_filled_len(data: Seq<u8>, pos: int, size: int)
    requires
        0 <= size,
    ensures
        filled_at(data, pos, size) matches Some((bytes, end)) ==> bytes.len() == size,
{
    match fill_start(data, pos) {
        None => {},
        Some(start) => {
            lemma_fill_run_len(data, start, (4 * size) as nat);
        },
    }
}

/// An image holds two bytes for every byte of a plane.
pub proof fn lemma_image_len(data: Seq<u8>, pos: int, width: int, height: int)
    requires
        0 <= width,
        0 <= height,
    ensures
        image_at(data, pos, width, height) matches Some((image, end)) ==> image.len() == 2
            * plane_len(width, height),
{
    assert(plane_len(width, height) >= 0) by (nonlinear_arith)
        requires
            0 <= width,
            0 <= height,
    ;
    if image_at(data, pos, width, height) is Some {
        lemma_filled_len(data, pos + 1, plane_len(width, height));
        let after_first = plane_at(data, pos + 1, width, height)->Some_0.1;
        let after_mode = mode_at(data, after_first)->Some_0.1;
        lemma_filled_len(data, after_mode, plane_len(width, height));
    }
}

} // verus!
