//! The first-generation codec, and the transposition that brings its
//! output into display order.

use vstd::prelude::*;
use vstd::arithmetic::div_mod::{
    lemma_fundamental_div_mod,
    lemma_fundamental_div_mod_converse,
    lemma_mod_pos_bound,
};
use vstd::arithmetic::power2::lemma2_to64;
use crate::bitstream::{
    BitStream,
    Cursor,
    bit_at,
    bits_value,
    lemma_bits_value_bound,
    lemma_code_value_positive,
    same_bits,
};
use crate::error::DecodeError;
use crate::plane::{
    FillState,
    INV_XOR_TABLE,
    deinterlaced,
    deinterlaced_byte,
    fill_run,
    fill_start,
    fill_step,
    filled_at,
    group_of,
    image_at,
    interleaved,
    lemma_fill_from_zero_group,
    lemma_fill_run_fails,
    lemma_image_len,
    lemma_planes_at_same,
    lemma_table_nibble,
    mode_at,
    pack4,
    packed,
    plane_at,
    plane_len,
    planes_at,
    second_plane,
    unxored,
    unxored_byte,
    xored,
};
use crate::tiles::{
    fits,
    grid_side,
    lemma_grid_side_square,
    lemma_rearranged_square,
    rearranged,
    scattered,
    square_side,
    transposed,
    wrapped_index,
};

verus! {

/// The side of a tile in pixels, and the number of bytes that a row of a
/// plane has for each tile across.
pub const TILESIZE: usize = 8;

/// What a decoder stands for: its place in the stream and the size of the
/// planes in tiles.
pub struct Decoder {
    pub cursor: Cursor,
    pub width: int,
    pub height: int,
}

/// A first-generation decoder over a stream whose header has been read.
pub struct Decompressor<'a> {
    data: BitStream<'a>,
    width: usize,
    height: usize,
}

impl<'a> View for Decompressor<'a> {
    type V = Decoder;

    closed spec fn view(&self) -> Decoder {
        Decoder { cursor: self.data@, width: self.width as int, height: self.height as int }
    }
}

/// The groups placed so far in the byte that is being filled: those of
/// slots `0` to `slot - 1`, each at its own two bits.
spec fn partly_packed(groups: Seq<u8>, base: int, slot: int) -> int {
    if slot <= 0 {
        0
    } else if slot == 1 {
        64 * groups[base]
    } else if slot == 2 {
        64 * groups[base] + 16 * groups[base + 1]
    } else if slot == 3 {
        64 * groups[base] + 16 * groups[base + 1] + 4 * groups[base + 2]
    } else {
        64 * groups[base] + 16 * groups[base + 1] + 4 * groups[base + 2] + groups[base + 3]
    }
}

/// Setting a group into two clear bits of a byte adds it at their weight.
proof fn lemma_place_group(byte: u8, group: u8)
    by (bit_vector)
    requires
        group < 4,
    ensures
        byte == 0 ==> byte | (group << 6usize) == 64 * group,
        byte % 64 == 0 ==> byte | (group << 4usize) == byte + 16 * group,
        byte % 16 == 0 ==> byte | (group << 2usize) == byte + 4 * group,
        byte % 4 == 0 ==> byte | (group << 0usize) == byte + group,
{
}

/// A pending run as the decoder holds it stands for the run `zeros` of the
/// format when `left` groups are still to come: the two are the same
/// number, or both outlast the plane.
spec fn run_stands_for(z: usize, zeros: int, left: int) -> bool {
    z == zeros || (z >= left && zeros >= left)
}

/// Four more groups make one more byte.
proof fn lemma_packed_push(groups: Seq<u8>, longer: Seq<u8>)
    requires
        groups.len() % 4 == 0,
        longer.len() == groups.len() + 4,
        longer.take(groups.len() as int) == groups,
    ensures
        packed(longer) == packed(groups).push(
            pack4(
                longer[groups.len() as int],
                longer[groups.len() as int + 1],
                longer[groups.len() as int + 2],
                longer[groups.len() as int + 3],
            ),
        ),
{
    let n = groups.len() as int;
    assert forall|j: int| 0 <= j < n / 4 implies #[trigger] packed(longer)[j] == packed(
        groups,
    )[j] by {
        assert(groups[4 * j] == longer.take(n)[4 * j]);
        assert(groups[4 * j + 1] == longer.take(n)[4 * j + 1]);
        assert(groups[4 * j + 2] == longer.take(n)[4 * j + 2]);
        assert(groups[4 * j + 3] == longer.take(n)[4 * j + 3]);
    }
}

/// Produces the next group of a fill that stands at `state` with `left`
/// groups to come, and moves `z` on.
fn next_group(
    stream: &mut BitStream<'_>,
    z: &mut usize,
    Ghost(state): Ghost<FillState>,
    Ghost(left): Ghost<int>,
) -> (r: Result<u8, DecodeError>)
    requires
        state.pos == old(stream)@.pos,
        run_stands_for(*old(z), state.zeros, left),
        1 <= left < usize::MAX,
    ensures
        final(stream)@.data == old(stream)@.data,
        match r {
            Ok(group) => group < 4 && fill_step(old(stream)@.data, state) == Some(
                FillState {
                    pos: final(stream)@.pos as int,
                    zeros: fill_step(old(stream)@.data, state)->Some_0.zeros,
                    groups: state.groups.push(group),
                },
            ) && run_stands_for(
                *final(z),
                fill_step(old(stream)@.data, state)->Some_0.zeros,
                left - 1,
            ),
            Err(e) => fill_step(old(stream)@.data, state) is None && e
                == DecodeError::MalformedStream,
        },
{
    if *z > 0 {
        *z -= 1;
        return Ok(0);
    }
    proof {
        lemma2_to64();
        lemma_bits_value_bound(stream@.data, state.pos, 2);
        lemma_code_value_positive(stream@.data, state.pos + 2);
    }
    let bitgroup = match stream.read_int(2) {
        Ok(bitgroup) => bitgroup as u8,
        Err(e) => {
            return Err(e);
        },
    };
    if bitgroup == 0 {
        *z = match stream.read_compress_int() {
            Ok(run) => run - 1,
            Err(e) => {
                return Err(e);
            },
        };
    }
    Ok(bitgroup)
}

/// Fills a plane of `size` bytes from the run-length code at the cursor.
fn fill(stream: &mut BitStream<'_>, size: usize) -> (r: Result<Vec<u8>, DecodeError>)
    requires
        size <= 1800,
    ensures
        final(stream)@.data == old(stream)@.data,
        match r {
            Ok(bytes) => bytes.len() == size && filled_at(
                old(stream)@.data,
                old(stream)@.pos as int,
                size as int,
            ) == Some((bytes@, final(stream)@.pos as int)),
            Err(e) => filled_at(old(stream)@.data, old(stream)@.pos as int, size as int) is None
                && e == DecodeError::MalformedStream,
        },
{
    let ghost data = stream@.data;
    let ghost begin = fill_start(data, stream@.pos as int);
    let mut z: usize = match stream.next() {
        Err(e) => {
            return Err(e);
        },
        Ok(true) => 0,
        Ok(false) => match stream.read_compress_int() {
            Ok(z) => z,
            Err(e) => {
                return Err(e);
            },
        },
    };
    let ghost start = begin->Some_0;
    let ghost mut state = start;
    let mut interlaced: Vec<u8> = Vec::with_capacity(size);
    while interlaced.len() < size
        invariant
            size <= 1800,
            data == old(stream)@.data,
            fill_start(data, old(stream)@.pos as int) == Some(start),
            stream@.data == data,
            interlaced.len() <= size,
            fill_run(data, start, (4 * interlaced.len()) as nat) == Some(state),
            state.pos == stream@.pos,
            state.groups.len() == 4 * interlaced.len(),
            forall|k: int| 0 <= k < state.groups.len() ==> state.groups[k] < 4,
            run_stands_for(z, state.zeros, 4 * size - 4 * interlaced.len()),
            interlaced@ == packed(state.groups),
        decreases size - interlaced.len(),
    {
        let mut byte: u8 = 0;
        let mut slot: usize = 0;
        let ghost base = 4 * interlaced.len();
        let ghost whole = state.groups;
        while slot < 4
            invariant
                size <= 1800,
                0 <= base,
                base + 4 <= 4 * size,
                data == old(stream)@.data,
                fill_start(data, old(stream)@.pos as int) == Some(start),
                stream@.data == data,
                slot <= 4,
                fill_run(data, start, (base + slot) as nat) == Some(state),
                state.pos == stream@.pos,
                state.groups.len() == base + slot,
                state.groups.take(base) == whole,
                forall|k: int| 0 <= k < state.groups.len() ==> state.groups[k] < 4,
                run_stands_for(z, state.zeros, 4 * size - base - slot),
                byte == partly_packed(state.groups, base, slot as int),
            decreases 4 - slot,
        {
            let shift: usize = 6 - 2 * slot;
            let ghost before = state;
            let group = match next_group(
                stream,
                &mut z,
                Ghost(state),
                Ghost(4 * size - base - slot),
            ) {
                Ok(group) => group,
                Err(e) => {
                    proof {
                        lemma_fill_run_fails(
                            data,
                            start,
                            (base + slot + 1) as nat,
                            (4 * size) as nat,
                        );
                    }
                    return Err(e);
                },
            };
            proof {
                lemma_place_group(byte, group);
                state = fill_step(data, before)->Some_0;
                assert(state.groups == before.groups.push(group));
                assert(state.groups.take(base) =~= before.groups.take(base));
                assert(forall|k: int|
                    0 <= k < before.groups.len() ==> state.groups[k] == before.groups[k]);
                assert(state.groups[base + slot] == group);
            }
            byte |= group << shift;
            slot += 1;
        }
        proof {
            lemma_packed_push(whole, state.groups);
        }
        interlaced.push(byte);
    }
    Ok(interlaced)
}

/// How the bits of a byte spell its four groups.
proof fn lemma_group_bits(byte: u8)
    by (bit_vector)
    ensures
        (byte >> 6usize) & 3 == byte / 64,
        (byte >> 4usize) & 3 == byte / 16 % 4,
        (byte >> 2usize) & 3 == byte / 4 % 4,
        (byte >> 0usize) & 3 == byte % 4,
{
}

/// Four groups set side by side are the byte that holds them.
proof fn lemma_pack_bits(g0: u8, g1: u8, g2: u8, g3: u8)
    by (bit_vector)
    requires
        g0 < 4,
        g1 < 4,
        g2 < 4,
        g3 < 4,
    ensures
        (g0 << 6usize) | (g1 << 4usize) | (g2 << 2usize) | g3 == 64 * g0 + 16 * g1 + 4 * g2 + g3,
{
}

/// Brings a filled plane of `width` by `height` tiles into row-major order.
fn deinterlace(interlaced: &Vec<u8>, width: usize, height: usize) -> (out: Vec<u8>)
    requires
        width <= 15,
        height <= 15,
        interlaced.len() == plane_len(width as int, height as int),
    ensures
        out@ == deinterlaced(interlaced@, width as int),
{
    let plane_width: usize = width * TILESIZE;
    assert(plane_width * height <= 1800) by (nonlinear_arith)
        requires
            plane_width <= 120,
            height <= 15,
    ;
    let mut out: Vec<u8> = Vec::with_capacity(plane_width * height);
    let mut y: usize = 0;
    while y < height
        invariant
            width <= 15,
            height <= 15,
            plane_width == 8 * width,
            interlaced.len() == plane_width * height,
            y <= height,
            out.len() == y * plane_width,
            forall|i: int|
                0 <= i < out.len() ==> out@[i] == deinterlaced_byte(interlaced@, width as int, i),
        decreases height - y,
    {
        let mut x: usize = 0;
        assert((y + 1) * plane_width <= height * plane_width && (y + 1) * plane_width == y
            * plane_width + plane_width && 0 <= y * plane_width) by (nonlinear_arith)
            requires
                y + 1 <= height,
                0 <= y,
                0 <= plane_width,
        ;
        while x < plane_width
            invariant
                width <= 15,
                height <= 15,
                plane_width == 8 * width,
                interlaced.len() == plane_width * height,
                y < height,
                x <= plane_width,
                0 <= y * plane_width,
                y * plane_width + plane_width <= plane_width * height,
                out.len() == y * plane_width + x,
                forall|i: int|
                    0 <= i < out.len() ==> out@[i] == deinterlaced_byte(
                        interlaced@,
                        width as int,
                        i,
                    ),
            decreases plane_width - x,
        {
            let bit_shift: usize = 6 - ((x % 4) * 2);
            let byte_index: usize = (y * plane_width) + (x / 4);
            let b0 = interlaced[byte_index];
            let b1 = interlaced[byte_index + width * 2];
            let b2 = interlaced[byte_index + width * 4];
            let b3 = interlaced[byte_index + width * 6];
            proof {
                lemma_group_bits(b0);
                lemma_group_bits(b1);
                lemma_group_bits(b2);
                lemma_group_bits(b3);
                lemma_pack_bits(
                    group_of(b0, x as int % 4),
                    group_of(b1, x as int % 4),
                    group_of(b2, x as int % 4),
                    group_of(b3, x as int % 4),
                );
                lemma_fundamental_div_mod_converse(
                    y * plane_width + x,
                    plane_width as int,
                    y as int,
                    x as int,
                );
            }
            out.push(
                ((b0 >> bit_shift) & 0b11) << 6 | ((b1 >> bit_shift) & 0b11) << 4 | ((b2
                    >> bit_shift) & 0b11) << 2 | ((b3 >> bit_shift) & 0b11),
            );
            x += 1;
        }
        y += 1;
    }
    assert(y * plane_width == plane_width * height) by (nonlinear_arith)
        requires
            y == height,
    ;
    out
}

/// How the bits of a byte spell its two nibbles, and the other way round.
proof fn lemma_nibble_bits(byte: u8, high: u8, low: u8)
    by (bit_vector)
    requires
        high < 16,
        low < 16,
    ensures
        (byte >> 4usize) & 0xf == byte / 16,
        byte & 0xf == byte % 16,
        high & 1 == high % 2,
        low & 1 == low % 2,
        (high << 4usize) | low == 16 * high + low,
{
}

/// Whether byte `j` of a plane has been decoded when the walk down the
/// columns stands at row `y` of column `x`.
spec fn walked(j: int, stride: int, x: int, y: int) -> bool {
    j % stride < x || (j % stride == x && j / stride < y)
}

/// A byte of a plane lies in one of its rows, at one of its columns.
proof fn lemma_rows(j: int, stride: int, height: int)
    requires
        0 <= j < stride * height,
        0 <= stride,
    ensures
        0 <= j / stride < height,
        0 <= j % stride < stride,
{
    assert(stride > 0) by (nonlinear_arith)
        requires
            0 <= j < stride * height,
            0 <= stride,
    ;
    lemma_fundamental_div_mod(j, stride);
    lemma_mod_pos_bound(j, stride);
    let q = j / stride;
    assert(0 <= q < height) by (nonlinear_arith)
        requires
            j == stride * q + j % stride,
            0 <= j % stride < stride,
            0 <= j < stride * height,
    ;
}

/// Reads the mode that stands between the two planes.
fn read_mode(stream: &mut BitStream<'_>) -> (r: Result<u8, DecodeError>)
    ensures
        final(stream)@.data == old(stream)@.data,
        match r {
            Ok(mode) => mode <= 2 && mode_at(old(stream)@.data, old(stream)@.pos as int) == Some(
                (mode as int, final(stream)@.pos as int),
            ),
            Err(e) => mode_at(old(stream)@.data, old(stream)@.pos as int) is None && e
                == DecodeError::MalformedStream,
        },
{
    match stream.next() {
        Err(e) => Err(e),
        Ok(false) => Ok(0),
        Ok(true) => match stream.next() {
            Err(e) => Err(e),
            Ok(false) => Ok(1),
            Ok(true) => Ok(2),
        },
    }
}

/// Returns the bytes of two planes in turn, those of `first` leading.
fn interleave(first: &Vec<u8>, second: &Vec<u8>) -> (result: Vec<u8>)
    requires
        first.len() == second.len(),
        first.len() <= 1800,
    ensures
        result@ == interleaved(first@, second@),
{
    let mut result: Vec<u8> = Vec::with_capacity(first.len() + second.len());
    let mut i: usize = 0;
    while i < first.len()
        invariant
            i <= first.len(),
            first.len() == second.len(),
            result@.len() == 2 * i,
            forall|k: int|
                0 <= k < 2 * i ==> result@[k] == if k % 2 == 0 {
                    first@[k / 2]
                } else {
                    second@[k / 2]
                },
        decreases first.len() - i,
    {
        result.push(first[i]);
        result.push(second[i]);
        i += 1;
    }
    result
}

impl<'a> Decompressor<'a> {
    #[verifier::type_invariant]
    spec fn inv(self) -> bool {
        self.width <= 15 && self.height <= 15
    }

    /// Reads the header of `data`: the width and then the height of the
    /// image in tiles, four bits each.
    pub fn new(data: &'a [u8]) -> (r: Result<Self, DecodeError>)
        ensures
            match r {
                Ok(decoder) => data@.len() >= 1 && decoder@ == (Decoder {
                    cursor: Cursor { data: data@, pos: 8 },
                    width: bits_value(data@, 0, 4) as int,
                    height: bits_value(data@, 4, 4) as int,
                }),
                Err(e) => data@.len() == 0 && e == DecodeError::MalformedStream,
            },
    {
        let mut stream = BitStream::new(data);
        proof {
            lemma2_to64();
            lemma_bits_value_bound(data@, 0, 4);
            lemma_bits_value_bound(data@, 4, 4);
        }
        let width = match stream.read_int(4) {
            Ok(width) => width,
            Err(e) => {
                return Err(e);
            },
        };
        let height = match stream.read_int(4) {
            Ok(height) => height,
            Err(e) => {
                return Err(e);
            },
        };
        Ok(Self { data: stream, width, height })
    }

    /// Reads one plane: fills it from the run-length code at the cursor and
    /// brings its bytes into row-major order. On an error the decoder is
    /// left as it was.
    pub fn fillram(&mut self) -> (r: Result<Vec<u8>, DecodeError>)
        ensures
            match r {
                Ok(plane) => plane_at(
                    old(self)@.cursor.data,
                    old(self)@.cursor.pos as int,
                    old(self)@.width,
                    old(self)@.height,
                ) == Some((plane@, final(self)@.cursor.pos as int))
                    && plane@.len() == plane_len(old(self)@.width, old(self)@.height)
                    && final(self)@.cursor.data == old(self)@.cursor.data
                    && final(self)@.width == old(self)@.width
                    && final(self)@.height == old(self)@.height,
                Err(e) => plane_at(
                    old(self)@.cursor.data,
                    old(self)@.cursor.pos as int,
                    old(self)@.width,
                    old(self)@.height,
                ) is None && e == DecodeError::MalformedStream && final(self)@ == old(self)@,
            },
    {
        proof {
            use_type_invariant(&*self);
        }
        let plane_width: usize = self.width * TILESIZE;
        assert(plane_width * self.height <= 1800) by (nonlinear_arith)
            requires
                plane_width <= 120,
                self.height <= 15,
        ;
        let size: usize = plane_width * self.height;
        let mut stream = self.data;
        let interlaced = match fill(&mut stream, size) {
            Ok(interlaced) => interlaced,
            Err(e) => {
                return Err(e);
            },
        };
        let deinterlaced = deinterlace(&interlaced, self.width, self.height);
        self.data = stream;
        Ok(deinterlaced)
    }

    /// Takes the differential transform off a plane in place, column by
    /// column from the top row down.
    pub fn decode(&self, ram: &mut [u8])
        requires
            old(ram)@.len() == plane_len(self@.width, self@.height),
        ensures
            final(ram)@ == unxored(old(ram)@, 8 * self@.width),
    {
        proof {
            use_type_invariant(self);
        }
        let plane_width: usize = self.width * TILESIZE;
        let height: usize = self.height;
        let ghost raw = ram@;
        let ghost stride = plane_width as int;
        let mut x: usize = 0;
        while x < plane_width
            invariant
                plane_width <= 120,
                height <= 15,
                stride == plane_width,
                x <= plane_width,
                ram@.len() == raw.len(),
                raw.len() == plane_width * height,
                forall|j: int|
                    0 <= j < raw.len() ==> ram@[j] == if walked(j, stride, x as int, 0) {
                        unxored_byte(raw, stride, j)
                    } else {
                        raw[j]
                    },
            decreases plane_width - x,
        {
            let mut bit: u8 = 0;
            let mut y: usize = 0;
            while y < height
                invariant
                    plane_width <= 120,
                    height <= 15,
                    stride == plane_width,
                    x < plane_width,
                    y <= height,
                    ram@.len() == raw.len(),
                    raw.len() == plane_width * height,
                    bit < 2,
                    bit == if y == 0 {
                        0
                    } else {
                        unxored_byte(raw, stride, (y - 1) * stride + x) as int % 2
                    },
                    forall|j: int|
                        0 <= j < raw.len() ==> ram@[j] == if walked(j, stride, x as int, y as int) {
                            unxored_byte(raw, stride, j)
                        } else {
                            raw[j]
                        },
                decreases height - y,
            {
                assert((y + 1) * plane_width <= height * plane_width && (y + 1) * plane_width == y
                    * plane_width + plane_width && 0 <= y * plane_width && (y >= 1 ==> y
                    * plane_width >= plane_width) && (y - 1) * plane_width == y * plane_width
                    - plane_width) by (nonlinear_arith)
                    requires
                        y + 1 <= height,
                        0 <= y,
                        0 <= plane_width,
                ;
                let i: usize = y * plane_width + x;
                let ghost before = ram@;
                proof {
                    lemma_fundamental_div_mod_converse(i as int, stride, y as int, x as int);
                    lemma_table_nibble(bit as int, ram@[i as int] as int / 16);
                }
                let mut a: u8 = (ram[i] >> 4) & 0xf;
                let mut b: u8 = ram[i] & 0xf;
                proof {
                    lemma_nibble_bits(ram@[i as int], 0, 0);
                }
                a = INV_XOR_TABLE[bit as usize][a as usize];
                proof {
                    lemma_nibble_bits(0, a, 0);
                    lemma_table_nibble(a as int % 2, b as int);
                }
                bit = a & 1;
                b = INV_XOR_TABLE[bit as usize][b as usize];
                proof {
                    lemma_nibble_bits(0, a, b);
                }
                bit = b & 1;
                ram[i] = (a << 4) | b;
                proof {
                    assert(ram@[i as int] == unxored_byte(raw, stride, i as int));
                    assert forall|j: int| 0 <= j < raw.len() implies ram@[j] == if walked(
                        j,
                        stride,
                        x as int,
                        y + 1,
                    ) {
                        unxored_byte(raw, stride, j)
                    } else {
                        raw[j]
                    } by {
                        if j != i {
                            assert(ram@[j] == before[j]);
                            if j % stride == x && j / stride == y {
                                lemma_fundamental_div_mod(j, stride);
                                assert(stride * (j / stride) == y * stride) by (nonlinear_arith)
                                    requires
                                        j / stride == y,
                                ;
                                assert(j == i);
                            }
                            assert(walked(j, stride, x as int, y + 1) == walked(
                                j,
                                stride,
                                x as int,
                                y as int,
                            ));
                        }
                    }
                }
                y += 1;
            }
            proof {
                assert forall|j: int| 0 <= j < raw.len() implies walked(
                    j,
                    stride,
                    x as int,
                    height as int,
                ) == walked(j, stride, x + 1, 0) by {
                    lemma_rows(j, stride, height as int);
                }
            }
            x += 1;
        }
        proof {
            assert forall|j: int| 0 <= j < raw.len() implies walked(j, stride, stride, 0) by {
                lemma_rows(j, stride, height as int);
            }
            assert(ram@ =~= unxored(raw, stride));
        }
    }

    /// Combines each byte of `ram1` with the byte of `ram0` at the same
    /// index by exclusive or.
    pub fn xor(&self, ram0: &[u8], ram1: &mut [u8])
        requires
            old(ram1)@.len() <= ram0@.len(),
        ensures
            final(ram1)@ == xored(ram0@, old(ram1)@),
    {
        let ghost before = ram1@;
        let len: usize = ram1.len();
        let mut i: usize = 0;
        while i < len
            invariant
                i <= len,
                len == before.len(),
                len <= ram0@.len(),
                ram1@.len() == len,
                forall|j: int| 0 <= j < i ==> ram1@[j] == before[j] ^ ram0@[j],
                forall|j: int| i <= j < len ==> ram1@[j] == before[j],
            decreases len - i,
        {
            ram1[i] ^= ram0[i];
            i += 1;
        }
        assert(ram1@ =~= xored(ram0@, before));
    }

    /// Decodes the image that follows the header: the bit that orders the
    /// planes, the first plane, the mode, the second plane. The planes are
    /// finished as the mode says and returned byte by byte in turn. On an
    /// error the decoder is left as it was.
    pub fn decompress(&mut self) -> (r: Result<Vec<u8>, DecodeError>)
        ensures
            match r {
                Ok(image) => image_at(
                    old(self)@.cursor.data,
                    old(self)@.cursor.pos as int,
                    old(self)@.width,
                    old(self)@.height,
                ) == Some((image@, final(self)@.cursor.pos as int))
                    && image@.len() == 2 * plane_len(old(self)@.width, old(self)@.height)
                    && final(self)@.cursor.data == old(self)@.cursor.data
                    && final(self)@.width == old(self)@.width
                    && final(self)@.height == old(self)@.height,
                Err(e) => image_at(
                    old(self)@.cursor.data,
                    old(self)@.cursor.pos as int,
                    old(self)@.width,
                    old(self)@.height,
                ) is None && e == DecodeError::MalformedStream && final(self)@ == old(self)@,
            },
    {
        proof {
            use_type_invariant(&*self);
        }
        assert(plane_len(self.width as int, self.height as int) <= 1800) by (nonlinear_arith)
            requires
                0 <= self.width <= 15,
                0 <= self.height <= 15,
        ;
        let saved = self.data;
        let mut stream = self.data;
        let order_reversed = match stream.next() {
            Ok(bit) => bit,
            Err(e) => {
                return Err(e);
            },
        };
        self.data = stream;
        let mut ram0 = match self.fillram() {
            Ok(plane) => plane,
            Err(e) => {
                self.data = saved;
                return Err(e);
            },
        };
        let ghost raw0 = ram0@;
        let mut stream = self.data;
        let mode = match read_mode(&mut stream) {
            Ok(mode) => mode,
            Err(e) => {
                self.data = saved;
                return Err(e);
            },
        };
        self.data = stream;
        let mut ram1 = match self.fillram() {
            Ok(plane) => plane,
            Err(e) => {
                self.data = saved;
                return Err(e);
            },
        };
        let ghost raw1 = ram1@;
        match mode {
            0 => {
                self.decode(&mut ram0);
                self.decode(&mut ram1);
            },
            1 => {
                self.decode(&mut ram0);
                self.xor(&ram0, &mut ram1);
            },
            _ => {
                self.decode(&mut ram1);
                self.decode(&mut ram0);
                self.xor(&ram0, &mut ram1);
            },
        }
        assert(ram0@ == unxored(raw0, 8 * self.width));
        assert(ram1@ == second_plane(mode as int, raw0, raw1, 8 * self.width));
        if order_reversed {
            Ok(interleave(&ram1, &ram0))
        } else {
            Ok(interleave(&ram0, &ram1))
        }
    }
}

/// The width in tiles that the header of a stream gives: its first four
/// bits.
pub open spec fn tile_width(input: Seq<u8>) -> int {
    bits_value(input, 0, 4) as int
}

/// The height in tiles that the header of a stream gives: its next four
/// bits.
pub open spec fn tile_height(input: Seq<u8>) -> int {
    bits_value(input, 4, 4) as int
}

/// The image that a first-generation stream stands for, in the order in
/// which the format stores its tiles.
pub open spec fn decompressed(input: Seq<u8>) -> Result<Seq<u8>, DecodeError> {
    if input.len() == 0 {
        Err(DecodeError::MalformedStream)
    } else {
        match image_at(input, 8, tile_width(input), tile_height(input)) {
            None => Err(DecodeError::MalformedStream),
            Some((image, _)) => Ok(image),
        }
    }
}

/// The image of a stream has the size that its header gives: two planes
/// of eight bytes for each tile across and each row down.
pub proof fn lemma_decompressed_len(input: Seq<u8>)
    ensures
        decompressed(input) matches Ok(image) ==> image.len() == 2 * (tile_width(input) * 8)
            * tile_height(input),
{
    let width = tile_width(input);
    let height = tile_height(input);
    lemma_image_len(input, 8, width, height);
    assert(2 * (width * 8 * height) == 2 * (width * 8) * height) by (nonlinear_arith);
}

/// The index of the first bit after the image of a stream that decodes:
/// the number of bits that decoding it reads.
pub open spec fn bits_read(input: Seq<u8>) -> int {
    image_at(input, 8, tile_width(input), tile_height(input))->Some_0.1
}

/// A first plane that begins with a zero group can be coded in two ways,
/// and both streams stand for the same image. Stream `x` sets the flag of
/// its first plane and spells the group as a zero pair before the run
/// length; stream `y` clears the flag and gives the run length at once.
/// The streams agree in their header and in the bit that orders the planes,
/// and from the run length on `y` holds the bits that are read from `x`.
/// Then `y` decodes as `x` does.
pub proof fn lemma_zero_group_as_run(x: Seq<u8>, y: Seq<u8>)
    requires
        decompressed(x) is Ok,
        tile_width(x) >= 1,
        tile_height(x) >= 1,
        tile_width(y) == tile_width(x),
        tile_height(y) == tile_height(x),
        bit_at(y, 8) == bit_at(x, 8),
        bit_at(x, 9),
        !bit_at(x, 10),
        !bit_at(x, 11),
        !bit_at(y, 9),
        same_bits(x, 12, y, 10, bits_read(x) - 12),
    ensures
        decompressed(y) == decompressed(x),
{
    let width = tile_width(x);
    let height = tile_height(x);
    let end = bits_read(x);
    lemma_plane_not_empty(width, height);
    lemma_fill_from_zero_group(x, 9, plane_len(width, height));
    assert(planes_at(x, 11, width, height) == planes_at(x, 9, width, height));
    assert forall|i: int| 11 <= i < end implies #[trigger] bit_at(x, i) == bit_at(
        y,
        i - 11 + 9,
    ) by {
        if i >= 12 {
            assert(bit_at(x, i) == bit_at(y, i - 12 + 10));
        }
    }
    lemma_planes_at_same(x, 11, y, 9, width, height);
}

/// The same the other way round: where `y` decodes, and from the run
/// length on `x` holds the bits that are read from `y`, `x` decodes as `y`
/// does.
pub proof fn lemma_run_as_zero_group(x: Seq<u8>, y: Seq<u8>)
    requires
        decompressed(y) is Ok,
        tile_width(y) >= 1,
        tile_height(y) >= 1,
        tile_width(x) == tile_width(y),
        tile_height(x) == tile_height(y),
        bit_at(x, 8) == bit_at(y, 8),
        bit_at(x, 9),
        !bit_at(x, 10),
        !bit_at(x, 11),
        !bit_at(y, 9),
        same_bits(y, 10, x, 12, bits_read(y) - 10),
    ensures
        decompressed(x) == decompressed(y),
{
    let width = tile_width(y);
    let height = tile_height(y);
    let end = bits_read(y);
    lemma_plane_not_empty(width, height);
    assert forall|i: int| 9 <= i < end implies #[trigger] bit_at(y, i) == bit_at(
        x,
        i - 9 + 11,
    ) by {
        if i >= 10 {
            assert(bit_at(y, i) == bit_at(x, i - 10 + 12));
        }
    }
    lemma_planes_at_same(y, 9, x, 11, width, height);
    lemma_fill_from_zero_group(x, 9, plane_len(width, height));
    assert(planes_at(x, 9, width, height) == planes_at(x, 11, width, height));
}

/// A plane of at least one tile each way holds at least one byte.
proof fn lemma_plane_not_empty(width: int, height: int)
    requires
        width >= 1,
        height >= 1,
    ensures
        plane_len(width, height) >= 1,
{
    assert(width * 8 * height >= 1) by (nonlinear_arith)
        requires
            width >= 1,
            height >= 1,
    ;
}

/// Decompresses a first-generation sprite.
///
/// The stream opens with the width and height of the image in tiles. Two
/// bit planes follow, each run-length coded and stored under a differential
/// transform, with a mode between them that says how the second plane
/// depends on the first. The result holds two bytes for every byte of a
/// plane.
pub fn decompress(input: &[u8]) -> (r: Result<Vec<u8>, DecodeError>)
    ensures
        match r {
            Ok(image) => decompressed(input@) == Ok::<Seq<u8>, DecodeError>(image@)
                && image@.len() == 2 * (tile_width(input@) * 8) * tile_height(input@),
            Err(e) => decompressed(input@) == Err::<Seq<u8>, DecodeError>(e),
        },
{
    let mut decoder = match Decompressor::new(input) {
        Ok(decoder) => decoder,
        Err(e) => {
            return Err(e);
        },
    };
    let ghost width = tile_width(input@);
    let ghost height = tile_height(input@);
    assert(2 * (width * 8 * height) == 2 * (width * 8) * height) by (nonlinear_arith);
    decoder.decompress()
}

/// Transposes a decompressed first-generation sprite, which brings its
/// tiles from the order in which the format stores them into display order.
///
/// The input is a grid of 16-byte tiles whose side the format's table of
/// lengths gives. Each byte is written to the index that the offset of its
/// tile, multiplied by the side and wrapped round the buffer, names. For
/// the square grids of up to 8 by 8 tiles that is the transposed grid. A
/// length that the table does not hold, or one for which a byte would go
/// beyond the end of the buffer, is refused.
pub fn transpose(input: &[u8]) -> (r: Result<Vec<u8>, DecodeError>)
    ensures
        match r {
            Ok(grid) => rearranged(input@) == Ok::<Seq<u8>, DecodeError>(grid@)
                && grid@.len() == input@.len(),
            Err(e) => rearranged(input@) == Err::<Seq<u8>, DecodeError>(e)
                && e == DecodeError::InvalidShape,
        },
        square_side(input@.len() as int) matches Some(side) ==> r is Ok && r->Ok_0@ == transposed(
            input@,
            side,
        ),
{
    let len: usize = input.len();
    let width: usize = match len {
        0x010 => 1,
        0x040 => 2,
        0x090 => 3,
        0x100 => 4,
        0x190 => 5,
        0x240 => 6,
        0x310 => 7,
        0x400 => 8,
        0x490 => 9,
        0x540 => 10,
        0x610 => 11,
        0x700 => 12,
        0x790 => 13,
        0x840 => 14,
        0x910 => 15,
        _ => {
            return Err(DecodeError::InvalidShape);
        },
    };
    proof {
        if width <= 8 {
            lemma_grid_side_square(len as int, width as int);
            lemma_rearranged_square(input@, width as int);
        }
    }
    let mut transposed: Vec<u8> = vec![0u8; len];
    assert(transposed@ =~= scattered(input@, width as int, 0));
    let mut i: usize = 0;
    while i < len
        invariant
            len == input@.len(),
            len <= 0x910,
            1 <= width <= 15,
            grid_side(len as int) == Some(width as int),
            i <= len,
            transposed@.len() == len,
            transposed@ == scattered(input@, width as int, i as nat),
            forall|k: int|
                0 <= k < i ==> 0 <= #[trigger] wrapped_index(k, width as int, len as int) < len,
            width <= 8 ==> fits(len as int, width as int),
        decreases len - i,
    {
        assert(i / 0x10 * width <= 145 * 15) by (nonlinear_arith)
            requires
                i / 0x10 <= 145,
                width <= 15,
        ;
        let j: usize = (i / 0x10) * width * 0x10;
        let j: usize = (j % len) + 0x10 * (j / len) + (i % 0x10);
        assert(j == wrapped_index(i as int, width as int, len as int));
        if j >= len {
            return Err(DecodeError::InvalidShape);
        }
        transposed[j] = input[i];
        i += 1;
    }
    Ok(transposed)
}

} // verus!
