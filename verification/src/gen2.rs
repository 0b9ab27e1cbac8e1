//! The second-generation codec: a stream of byte-aligned commands, each of
//! which appends to an output that later commands may copy from.

use vstd::prelude::*;
use crate::error::DecodeError;
use crate::reverse::{bit_reversed, reverse_bits};

verus! {

/// The control byte that ends a stream.
pub const END_OF_STREAM: u8 = 0xff;

/// A command header: which command, how many bytes it appends, and the
/// input position of whatever follows the header.
pub struct Header {
    pub command: int,
    pub count: int,
    pub next: int,
}

/// The header that starts at `pos`. The top three bits of the control byte
/// name the command and its low five bits give the count less one, unless
/// those three bits are all set: then bits 4 to 2 name the command, and bits
/// 1 and 0 together with the next input byte give the count less one.
pub open spec fn header_at(input: Seq<u8>, pos: int) -> Result<Header, DecodeError> {
    let control = input[pos] as int;
    if control / 32 != 7 {
        Ok(Header { command: control / 32, count: control % 32 + 1, next: pos + 1 })
    } else if pos + 1 >= input.len() {
        Err(DecodeError::MalformedStream)
    } else if control % 32 / 4 == 7 {
        Err(DecodeError::InvariantViolation)
    } else {
        Ok(
            Header {
                command: control % 32 / 4,
                count: control % 4 * 256 + input[pos + 1] + 1,
                next: pos + 2,
            },
        )
    }
}

/// The address of a copy command: the output index it starts at, and the input
/// position after the address. A first byte below 128 is the high byte of
/// an absolute index whose low byte follows; otherwise its low seven bits
/// count back from the last byte written, which has distance zero.
pub open spec fn address_at(input: Seq<u8>, pos: int, written: int) -> Result<
    (int, int),
    DecodeError,
> {
    if pos >= input.len() {
        Err(DecodeError::MalformedStream)
    } else if input[pos] < 128 {
        if pos + 1 >= input.len() {
            Err(DecodeError::MalformedStream)
        } else {
            Ok((input[pos] * 256 + input[pos + 1], pos + 2))
        }
    } else if written < input[pos] - 128 + 1 {
        Err(DecodeError::ReferenceOutOfBounds)
    } else {
        Ok((written - (input[pos] - 128) - 1, pos + 1))
    }
}

/// `out` after `count` bytes were appended one at a time, each read at the
/// next index from `start` on in the buffer as it is at that moment, so that
/// a range running into the appended bytes repeats them.
pub open spec fn copied_forward(out: Seq<u8>, start: int, count: int, reversing: bool) -> Seq<u8>
    decreases count,
{
    if count <= 0 {
        out
    } else {
        let byte = if reversing {
            bit_reversed(out[start])
        } else {
            out[start]
        };
        copied_forward(out.push(byte), start + 1, count - 1, reversing)
    }
}

/// The effect of the one command whose header starts at `pos`: the input
/// position after it and the output with its bytes appended.
pub open spec fn command_at(input: Seq<u8>, pos: int, out: Seq<u8>) -> Result<
    (int, Seq<u8>),
    DecodeError,
> {
    match header_at(input, pos) {
        Err(e) => Err(e),
        Ok(h) => if h.command == 0 {
            if h.next + h.count > input.len() {
                Err(DecodeError::MalformedStream)
            } else {
                Ok((h.next + h.count, out + input.subrange(h.next, h.next + h.count)))
            }
        } else if h.command == 1 {
            if h.next >= input.len() {
                Err(DecodeError::MalformedStream)
            } else {
                Ok((h.next + 1, out + Seq::new(h.count as nat, |i: int| input[h.next])))
            }
        } else if h.command == 2 {
            if h.next + 2 > input.len() {
                Err(DecodeError::MalformedStream)
            } else {
                Ok((h.next + 2, out + Seq::new(h.count as nat, |i: int| input[h.next + i % 2])))
            }
        } else if h.command == 3 {
            Ok((h.next, out + Seq::new(h.count as nat, |i: int| 0u8)))
        } else {
            match address_at(input, h.next, out.len() as int) {
                Err(e) => Err(e),
                Ok((start, next)) => if start >= out.len() {
                    Err(DecodeError::ReferenceOutOfBounds)
                } else if h.command == 4 {
                    Ok((next, copied_forward(out, start, h.count, false)))
                } else if h.command == 5 {
                    Ok((next, copied_forward(out, start, h.count, true)))
                } else if h.count > start + 1 {
                    Err(DecodeError::ReferenceOutOfBounds)
                } else {
                    Ok((next, out + Seq::new(h.count as nat, |i: int| out[start - i])))
                },
            }
        },
    }
}

/// What the commands from `pos` on make of `out`, up to the end marker.
pub open spec fn decoded_from(input: Seq<u8>, pos: int, out: Seq<u8>) -> Result<
    Seq<u8>,
    DecodeError,
>
    decreases input.len() - pos,
{
    if pos < 0 || pos >= input.len() {
        Err(DecodeError::MalformedStream)
    } else if input[pos] == END_OF_STREAM {
        Ok(out)
    } else {
        match command_at(input, pos, out) {
            Err(e) => Err(e),
            Ok((next, grown)) => decoded_from(input, next, grown),
        }
    }
}

/// The image that a command stream stands for.
pub open spec fn decompressed(input: Seq<u8>) -> Result<Seq<u8>, DecodeError> {
    decoded_from(input, 0, Seq::empty())
}

/// A copy that reads forward keeps what was there and appends `count`
/// bytes. Each of them is the byte that stands `out.len() - start` places
/// before it in the result, with its bits reversed where the copy reverses:
/// where the range runs into the appended bytes, it repeats them.
pub proof fn lemma_copied_forward(out: Seq<u8>, start: int, count: int, reversing: bool)
    requires
        0 <= start < out.len(),
        0 <= count,
    ensures
        copied_forward(out, start, count, reversing).len() == out.len() + count,
        copied_forward(out, start, count, reversing).take(out.len() as int) == out,
        forall|k: int|
            0 <= k < count ==> #[trigger] copied_forward(out, start, count, reversing)[out.len()
                + k] == if reversing {
                bit_reversed(copied_forward(out, start, count, reversing)[start + k])
            } else {
                copied_forward(out, start, count, reversing)[start + k]
            },
    decreases count,
{
    let result = copied_forward(out, start, count, reversing);
    if count > 0 {
        let byte = if reversing {
            bit_reversed(out[start])
        } else {
            out[start]
        };
        let longer = out.push(byte);
        lemma_copied_forward(longer, start + 1, count - 1, reversing);
        assert(result.take(out.len() as int) == out) by {
            assert(result.take(longer.len() as int).take(out.len() as int) =~= result.take(
                out.len() as int,
            ));
            assert(longer.take(out.len() as int) =~= out);
        }
        assert(result[out.len() as int] == byte) by {
            assert(result.take(longer.len() as int)[out.len() as int] == longer[out.len() as int]);
        }
        assert(result[start] == out[start]) by {
            assert(result.take(out.len() as int)[start] == out[start]);
        }
        assert forall|k: int| 0 <= k < count implies #[trigger] result[out.len() + k]
            == if reversing {
            bit_reversed(result[start + k])
        } else {
            result[start + k]
        } by {
            if k > 0 {
                assert(result[longer.len() + (k - 1)] == if reversing {
                    bit_reversed(result[start + 1 + (k - 1)])
                } else {
                    result[start + 1 + (k - 1)]
                });
            }
        }
    } else {
        assert(result.take(out.len() as int) =~= out);
    }
}

/// A command moves on in the input, keeps the output that was there, and
/// appends as many bytes as its header counts: between 1 and 1024.
pub proof fn lemma_command_at(input: Seq<u8>, pos: int, out: Seq<u8>)
    requires
        0 <= pos < input.len(),
    ensures
        command_at(input, pos, out) matches Ok((next, grown)) ==> {
            &&& header_at(input, pos) matches Ok(h)
            &&& 1 <= h.count <= 1024
            &&& pos < next <= input.len()
            &&& grown.len() == out.len() + h.count
            &&& grown.take(out.len() as int) == out
        },
{
    match command_at(input, pos, out) {
        Err(_) => {},
        Ok((next, grown)) => {
            let h = header_at(input, pos)->Ok_0;
            if h.command >= 4 {
                let start = address_at(input, h.next, out.len() as int)->Ok_0.0;
                if h.command <= 5 {
                    lemma_copied_forward(out, start, h.count, h.command == 5);
                }
            }
            assert(grown.take(out.len() as int) =~= out);
        },
    }
}

/// Decoding only ever appends: what has been written stays as it is.
pub proof fn lemma_decoded_from_keeps(input: Seq<u8>, pos: int, out: Seq<u8>)
    ensures
        decoded_from(input, pos, out) matches Ok(image) ==> out.len() <= image.len() && image.take(
            out.len() as int,
        ) == out,
    decreases input.len() - pos,
{
    if 0 <= pos < input.len() && input[pos] != END_OF_STREAM {
        lemma_command_at(input, pos, out);
        match command_at(input, pos, out) {
            Err(_) => {},
            Ok((next, grown)) => {
                lemma_decoded_from_keeps(input, next, grown);
                match decoded_from(input, next, grown) {
                    Err(_) => {},
                    Ok(image) => {
                        assert(image.take(grown.len() as int).take(out.len() as int)
                            =~= image.take(out.len() as int));
                    },
                }
            },
        }
    } else if 0 <= pos < input.len() {
        assert(out.take(out.len() as int) =~= out);
    }
}

/// Reads the command header at `pos`, which must hold a control byte other
/// than the end marker.
fn read_header(input: &[u8], pos: usize) -> (r: Result<(u8, usize, usize), DecodeError>)
    requires
        pos < input.len(),
    ensures
        match r {
            Ok((command, count, next)) => header_at(input@, pos as int) == Ok::<
                Header,
                DecodeError,
            >((Header { command: command as int, count: count as int, next: next as int })),
            Err(e) => header_at(input@, pos as int) == Err::<Header, DecodeError>(e),
        },
        r matches Ok((command, count, next)) ==> command <= 6 && 1 <= count <= 1024 && pos < next
            <= input.len(),
{
    let control = input[pos];
    let command = control >> 5;
    let low = control & 0x1f;
    assert(control >> 5 == control / 32 && control & 0x1f == control % 32) by (bit_vector);
    if command != 7 {
        return Ok((command, low as usize + 1, pos + 1));
    }
    if pos + 1 >= input.len() {
        return Err(DecodeError::MalformedStream);
    }
    let command = low >> 2;
    let high = (low & 3) as usize;
    assert(low >> 2 == low / 4 && low & 3 == low % 4) by (bit_vector);
    if command == 7 {
        return Err(DecodeError::InvariantViolation);
    }
    let count = high * 256 + input[pos + 1] as usize;
    Ok((command, count + 1, pos + 2))
}

/// Reads the address of a copy command at `pos`, for an output of `written`
/// bytes.
fn read_address(input: &[u8], pos: usize, written: usize) -> (r: Result<
    (usize, usize),
    DecodeError,
>)
    requires
        pos <= input.len(),
    ensures
        match r {
            Ok((start, next)) => address_at(input@, pos as int, written as int) == Ok::<
                (int, int),
                DecodeError,
            >((start as int, next as int)),
            Err(e) => address_at(input@, pos as int, written as int) == Err::<
                (int, int),
                DecodeError,
            >(e),
        },
        r matches Ok((start, next)) ==> pos < next <= input.len(),
{
    if pos >= input.len() {
        return Err(DecodeError::MalformedStream);
    }
    let first = input[pos];
    assert(first & 0x80 == 0 <==> first < 128) by (bit_vector);
    assert(first & 0x7f == first % 128) by (bit_vector);
    if first & 0x80 == 0 {
        if pos + 1 >= input.len() {
            return Err(DecodeError::MalformedStream);
        }
        Ok((first as usize * 256 + input[pos + 1] as usize, pos + 2))
    } else {
        let back = (first & 0x7f) as usize;
        if written < back + 1 {
            return Err(DecodeError::ReferenceOutOfBounds);
        }
        Ok((written - back - 1, pos + 1))
    }
}

/// Appends `input[from..from + count]` to `out`.
fn push_literal(out: &mut Vec<u8>, input: &[u8], from: usize, count: usize)
    requires
        from + count <= input.len(),
    ensures
        final(out)@ == old(out)@ + input@.subrange(from as int, from + count),
{
    let ghost before = out@;
    let mut i: usize = 0;
    while i < count
        invariant
            i <= count,
            from + count <= input.len(),
            out@ == before + input@.subrange(from as int, from + i),
        decreases count - i,
    {
        out.push(input[from + i]);
        i += 1;
    }
}

/// Appends `byte` to `out` `count` times.
fn push_repeated(out: &mut Vec<u8>, byte: u8, count: usize)
    ensures
        final(out)@ == old(out)@ + Seq::new(count as nat, |i: int| byte),
{
    let ghost before = out@;
    let mut i: usize = 0;
    while i < count
        invariant
            i <= count,
            out@ == before + Seq::new(i as nat, |i: int| byte),
        decreases count - i,
    {
        out.push(byte);
        i += 1;
    }
}

/// Appends `count` bytes that alternate between `first` and `second`,
/// starting with `first`.
fn push_alternating(out: &mut Vec<u8>, first: u8, second: u8, count: usize)
    ensures
        final(out)@ == old(out)@ + Seq::new(
            count as nat,
            |i: int| if i % 2 == 0 {
                first
            } else {
                second
            },
        ),
{
    let ghost before = out@;
    let mut i: usize = 0;
    while i < count
        invariant
            i <= count,
            out@ == before + Seq::new(
                i as nat,
                |i: int| if i % 2 == 0 {
                    first
                } else {
                    second
                },
            ),
        decreases count - i,
    {
        out.push(if i % 2 == 0 { first } else { second });
        i += 1;
    }
}

/// Appends `count` bytes read forward from `start` in `out` itself, which
/// grows while it is read; with `reversing`, each byte has its bits reversed
/// on the way.
fn copy_forward(out: &mut Vec<u8>, start: usize, count: usize, reversing: bool)
    requires
        start < old(out).len(),
    ensures
        final(out)@ == copied_forward(old(out)@, start as int, count as int, reversing),
{
    let ghost before = out@;
    let mut i: usize = 0;
    while i < count
        invariant
            i <= count,
            start + i < out.len(),
            copied_forward(out@, start + i, count - i, reversing) == copied_forward(
                before,
                start as int,
                count as int,
                reversing,
            ),
        decreases count - i,
    {
        let byte = out[start + i];
        out.push(if reversing { reverse_bits(byte) } else { byte });
        i += 1;
    }
}

/// Appends `count` bytes read backward from `start` in `out`.
fn copy_backward(out: &mut Vec<u8>, start: usize, count: usize)
    requires
        start < old(out).len(),
        count <= start + 1,
    ensures
        final(out)@ == old(out)@ + Seq::new(count as nat, |i: int| old(out)@[start - i]),
{
    let ghost before = out@;
    let mut i: usize = 0;
    while i < count
        invariant
            i <= count <= start + 1,
            start < before.len(),
            out@ == before + Seq::new(i as nat, |i: int| before[start - i]),
        decreases count - i,
    {
        out.push(out[start - i]);
        i += 1;
    }
}

/// Decompresses a second-generation command stream.
///
/// The stream is a run of commands closed by the end marker. Each command
/// appends between 1 and 1024 bytes to the output: bytes taken from the
/// input, one byte repeated, two bytes in alternation, zeros, or a copy of
/// output already written, read forward, forward with the bits of each byte
/// reversed, or backward.
pub fn decompress(input: &[u8]) -> (r: Result<Vec<u8>, DecodeError>)
    ensures
        match r {
            Ok(image) => decompressed(input@) == Ok::<Seq<u8>, DecodeError>(image@),
            Err(e) => decompressed(input@) == Err::<Seq<u8>, DecodeError>(e),
        },
{
    let mut result: Vec<u8> = Vec::new();
    let mut pos: usize = 0;
    loop
        invariant
            pos <= input.len(),
            decoded_from(input@, pos as int, result@) == decompressed(input@),
        decreases input.len() - pos,
    {
        if pos >= input.len() {
            return Err(DecodeError::MalformedStream);
        }
        if input[pos] == END_OF_STREAM {
            return Ok(result);
        }
        let (command, count, after_header) = match read_header(input, pos) {
            Ok(header) => header,
            Err(e) => {
                return Err(e);
            },
        };
        let ghost before = result@;
        pos = after_header;
        match command {
            0 => {
                if count > input.len() - pos {
                    return Err(DecodeError::MalformedStream);
                }
                push_literal(&mut result, input, pos, count);
                pos += count;
            },
            1 => {
                if pos >= input.len() {
                    return Err(DecodeError::MalformedStream);
                }
                push_repeated(&mut result, input[pos], count);
                pos += 1;
            },
            2 => {
                if input.len() - pos < 2 {
                    return Err(DecodeError::MalformedStream);
                }
                push_alternating(&mut result, input[pos], input[pos + 1], count);
                assert(result@ == before + Seq::new(
                    count as nat,
                    |i: int| input@[pos as int + i % 2],
                ));
                pos += 2;
            },
            3 => {
                push_repeated(&mut result, 0, count);
            },
            _ => {
                let (start, after_address) = match read_address(input, pos, result.len()) {
                    Ok(address) => address,
                    Err(e) => {
                        return Err(e);
                    },
                };
                pos = after_address;
                if start >= result.len() {
                    return Err(DecodeError::ReferenceOutOfBounds);
                }
                if command == 4 {
                    copy_forward(&mut result, start, count, false);
                } else if command == 5 {
                    copy_forward(&mut result, start, count, true);
                } else {
                    if count > start + 1 {
                        return Err(DecodeError::ReferenceOutOfBounds);
                    }
                    copy_backward(&mut result, start, count);
                }
            },
        }
    }
}

} // verus!
