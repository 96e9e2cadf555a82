use vstd::prelude::*;

verus! {

const INITIAL_OFFSET: u8 = 0;

const LAST_OFFSET: u8 = 8;

/// Bit `at` of a byte, bit 0 being the least significant.
pub open spec fn bit_at(byte: u8, at: int) -> bool {
    (byte >> (at as u8)) & 1u8 == 1u8
}

/// The eight bits of a byte in the order in which they travel: bit 0 first.
pub open spec fn bits_of_byte(byte: u8) -> Seq<bool> {
    Seq::new(8, |at: int| bit_at(byte, at))
}

/// The bits of a sequence of bytes, each byte with bit 0 first.
pub open spec fn unpack(bytes: Seq<u8>) -> Seq<bool> {
    Seq::new(8 * bytes.len(), |at: int| bit_at(bytes[at / 8], at % 8))
}

/// The bits of some bytes are the bits of the first, then those of the rest.
pub proof fn lemma_unpack_first(bytes: Seq<u8>)
    requires
        bytes.len() > 0,
    ensures
        unpack(bytes) == bits_of_byte(bytes[0]) + unpack(bytes.skip(1)),
{
    assert(unpack(bytes) =~= bits_of_byte(bytes[0]) + unpack(bytes.skip(1)));
}

/// The bits of some bytes and one more are the bits of the bytes, then
/// those of the last.
pub proof fn lemma_unpack_push(bytes: Seq<u8>, byte: u8)
    ensures
        unpack(bytes.push(byte)) == unpack(bytes) + bits_of_byte(byte),
{
    assert(unpack(bytes.push(byte)) =~= unpack(bytes) + bits_of_byte(byte));
}

/// A shift register of one byte: `offset` bits of `buffer` are in use.
#[derive(Debug)]
struct BitBuffer {
    buffer: u8,
    offset: u8,
}

impl BitBuffer {
    fn new() -> (fresh: Self)
        ensures
            fresh.buffer == 0,
            fresh.offset == INITIAL_OFFSET,
    {
        BitBuffer { buffer: 0, offset: INITIAL_OFFSET }
    }
}

/// Why a bit could not be read.
#[derive(Copy, Clone, Debug, PartialEq, Eq)]
pub enum IoError {
    /// Every bit of the input has been read.
    UnexpectedEof,
}

/// Reads and writes single bits over bytes; within a byte, bit 0 travels
/// first.
///
/// The buffer does no reading or writing of its own: the host feeds it the
/// bytes of the input and takes from it the bytes of the output.
#[derive(Debug)]
pub struct IoBuffer {
    input_buf: BitBuffer,
    output_buf: BitBuffer,
    input: Vec<u8>,
    next: usize,
    output: Vec<u8>,
}

impl IoBuffer {
    /// The bits of the input that have not been read, in order.
    pub closed spec fn pending_input(&self) -> Seq<bool> {
        bits_of_byte(self.input_buf.buffer).skip(
            if self.input_buf.offset == 0 {
                8
            } else {
                self.input_buf.offset as int
            },
        ) + unpack(self.input@.skip(self.next as int))
    }

    /// The bytes of output that are complete and that the host has not
    /// taken yet.
    pub closed spec fn emitted(&self) -> Seq<u8> {
        self.output@
    }

    /// The bits of output that do not fill a byte yet: fewer than eight.
    pub closed spec fn pending_output(&self) -> Seq<bool> {
        bits_of_byte(self.output_buf.buffer).take(self.output_buf.offset as int)
    }

    /// The bits of output that the host has not taken, in the order in
    /// which they were put.
    pub open spec fn written(&self) -> Seq<bool> {
        unpack(self.emitted()) + self.pending_output()
    }

    /// Both registers hold fewer than eight bits, and the output register
    /// holds no bit beyond those that were put.
    pub closed spec fn wf(&self) -> bool {
        &&& self.input_buf.offset < LAST_OFFSET
        &&& self.output_buf.offset < LAST_OFFSET
        &&& self.next <= self.input@.len()
        &&& forall|at: int|
            self.output_buf.offset <= at < 8 ==> !bit_at(self.output_buf.buffer, at)
    }

    /// A buffer that reads the bits of `input` and writes after the bytes
    /// of `output`.
    pub fn with_io(input: Vec<u8>, output: Vec<u8>) -> (io: Self)
        ensures
            io.wf(),
            io.pending_input() == unpack(input@),
            io.emitted() == output@,
            io.pending_output() == Seq::<bool>::empty(),
    {
        let io = IoBuffer {
            input_buf: BitBuffer::new(),
            output_buf: BitBuffer::new(),
            input: input,
            next: 0,
            output: output,
        };
        proof {
            lemma_zero_byte();
            assert(io.input@.skip(0) == io.input@);
            assert(io.pending_input() =~= unpack(input@));
            assert(io.pending_output() =~= Seq::<bool>::empty());
        }
        io
    }

    /// Adds a byte to the end of the input.
    pub fn feed(&mut self, byte: u8)
        requires
            old(self).wf(),
        ensures
            final(self).wf(),
            final(self).pending_input() == old(self).pending_input() + bits_of_byte(byte),
            final(self).emitted() == old(self).emitted(),
            final(self).pending_output() == old(self).pending_output(),
    {
        let ghost unread = self.input@.skip(self.next as int);
        if self.next == self.input.len() {
            self.input.clear();
            self.next = 0;
        }
        self.input.push(byte);
        proof {
            assert(self.input@.skip(self.next as int) =~= unread.push(byte));
            lemma_unpack_push(unread, byte);
            assert(self.pending_input() =~= old(self).pending_input() + bits_of_byte(byte));
        }
    }

    /// Takes the complete bytes of output out of the buffer.
    pub fn take_output(&mut self) -> (bytes: Vec<u8>)
        requires
            old(self).wf(),
        ensures
            final(self).wf(),
            bytes@ == old(self).emitted(),
            final(self).emitted() == Seq::<u8>::empty(),
            final(self).pending_input() == old(self).pending_input(),
            final(self).pending_output() == old(self).pending_output(),
    {
        let mut bytes: Vec<u8> = Vec::new();
        std::mem::swap(&mut self.output, &mut bytes);
        bytes
    }

    /// Whether `count` bits of input at least have not been read.
    pub fn has_input(&self, count: usize) -> (enough: bool)
        requires
            self.wf(),
        ensures
            enough == (count <= self.pending_input().len()),
    {
        let in_register: usize = if self.input_buf.offset == 0 {
            0
        } else {
            (8 - self.input_buf.offset) as usize
        };
        let unread: usize = self.input.len() - self.next;
        proof {
            assert(self.pending_input().len() == in_register + 8 * unread);
        }
        if count <= in_register {
            true
        } else {
            let need: usize = count - in_register;
            let bytes: usize = need / 8 + if need % 8 != 0 {
                1usize
            } else {
                0usize
            };
            bytes <= unread
        }
    }

    /// Reads the next bit of the input.
    ///
    /// Fails, with the buffer unchanged, if every bit has been read.
    pub fn get(&mut self) -> (res: Result<bool, IoError>)
        requires
            old(self).wf(),
        ensures
            final(self).wf(),
            final(self).emitted() == old(self).emitted(),
            final(self).pending_output() == old(self).pending_output(),
            match res {
                Ok(bit) => {
                    &&& old(self).pending_input().len() > 0
                    &&& bit == old(self).pending_input()[0]
                    &&& final(self).pending_input() == old(self).pending_input().skip(1)
                },
                Err(_) => {
                    &&& old(self).pending_input().len() == 0
                    &&& final(self).pending_input() == old(self).pending_input()
                },
            },
    {
        let ghost unread = self.input@.skip(self.next as int);
        if self.input_buf.offset == INITIAL_OFFSET {
            if self.next >= self.input.len() {
                proof {
                    assert(self.pending_input() =~= Seq::<bool>::empty());
                }
                return Err(IoError::UnexpectedEof);
            }
            self.input_buf.buffer = self.input[self.next];
            self.next += 1;
            proof {
                lemma_unpack_first(unread);
                assert(unread.skip(1) =~= self.input@.skip(self.next as int));
            }
        }
        let byte = self.input_buf.buffer;
        let offset = self.input_buf.offset;
        let bit = byte & (1u8 << offset);
        proof {
            lemma_test_bit(byte, offset);
        }
        self.input_buf.offset += 1;
        if self.input_buf.offset == LAST_OFFSET {
            self.input_buf = BitBuffer::new();
        }
        proof {
            let rest = unpack(self.input@.skip(self.next as int));
            let before = old(self).pending_input();
            assert(before =~= bits_of_byte(byte).skip(offset as int) + rest);
            assert(self.pending_input() =~= bits_of_byte(byte).skip(offset + 1) + rest);
            assert(self.pending_input() =~= before.skip(1));
        }
        Ok(bit != 0)
    }

    /// Writes a bit to the output. The eighth bit completes a byte, which
    /// joins the bytes that the host takes.
    pub fn put(&mut self, bit: bool)
        requires
            old(self).wf(),
        ensures
            final(self).wf(),
            final(self).pending_input() == old(self).pending_input(),
            final(self).written() == old(self).written().push(bit),
            old(self).pending_output().len() < 7 ==> {
                &&& final(self).emitted() == old(self).emitted()
                &&& final(self).pending_output() == old(self).pending_output().push(bit)
            },
            old(self).pending_output().len() == 7 ==> {
                &&& final(self).emitted().len() == old(self).emitted().len() + 1
                &&& final(self).emitted().drop_last() == old(self).emitted()
                &&& bits_of_byte(final(self).emitted().last()) == old(self).pending_output().push(
                    bit,
                )
                &&& final(self).pending_output().len() == 0
            },
    {
        let byte = self.output_buf.buffer;
        let offset = self.output_buf.offset;
        let one: u8 = if bit {
            1
        } else {
            0
        };
        let merged: u8 = byte | (one << offset);
        proof {
            assert forall|at: int| 0 <= at < 8 implies bit_at(merged, at) == (if at == offset {
                bit
            } else {
                bit_at(byte, at)
            }) by {
                lemma_set_bit(byte, offset, one, at as u8);
            }
        }
        self.output_buf.buffer = merged;
        self.output_buf.offset += 1;
        if self.output_buf.offset == LAST_OFFSET {
            self.output.push(self.output_buf.buffer);
            self.output_buf = BitBuffer::new();
            proof {
                lemma_zero_byte();
                lemma_unpack_push(old(self).emitted(), merged);
                assert(bits_of_byte(merged) =~= old(self).pending_output().push(bit));
                assert(self.pending_output() =~= Seq::<bool>::empty());
                assert(self.emitted().drop_last() =~= old(self).emitted());
                assert(self.written() =~= old(self).written().push(bit));
            }
        } else {
            proof {
                assert(self.pending_output() =~= old(self).pending_output().push(bit));
                assert(self.written() =~= old(self).written().push(bit));
            }
        }
    }

    /// The bits of output that the host has not taken, in the order in
    /// which they were put.
    pub fn written_bits(&self) -> (bits: Vec<bool>)
        requires
            self.wf(),
        ensures
            bits@ == self.written(),
    {
        let mut bits: Vec<bool> = Vec::new();
        let n = self.output.len();
        let mut i: usize = 0;
        while i < n
            invariant
                n == self.output@.len(),
                i <= n,
                bits@ == unpack(self.output@.take(i as int)),
            decreases n - i,
        {
            let byte = self.output[i];
            let ghost before = bits@;
            let mut at: u8 = 0;
            while at < 8
                invariant
                    at <= 8,
                    bits@ == before + bits_of_byte(byte).take(at as int),
                decreases 8 - at,
            {
                proof {
                    lemma_test_bit(byte, at);
                }
                bits.push(byte & (1u8 << at) != 0);
                assert(bits@ =~= before + bits_of_byte(byte).take(at + 1));
                at += 1;
            }
            proof {
                lemma_unpack_push(self.output@.take(i as int), byte);
                assert(self.output@.take(i + 1) =~= self.output@.take(i as int).push(byte));
                assert(bits_of_byte(byte).take(8) =~= bits_of_byte(byte));
            }
            i += 1;
        }
        assert(self.output@.take(n as int) == self.output@);
        let ghost before = bits@;
        let byte = self.output_buf.buffer;
        let pending = self.output_buf.offset;
        let mut at: u8 = 0;
        while at < pending
            invariant
                at <= pending < 8,
                bits@ == before + bits_of_byte(byte).take(at as int),
            decreases pending - at,
        {
            proof {
                lemma_test_bit(byte, at);
            }
            bits.push(byte & (1u8 << at) != 0);
            assert(bits@ =~= before + bits_of_byte(byte).take(at + 1));
            at += 1;
        }
        bits
    }
}

/// Masking a byte with one bit tells that bit of the byte.
proof fn lemma_test_bit(byte: u8, at: u8)
    requires
        at < 8,
    ensures
        (byte & (1u8 << at) != 0) == bit_at(byte, at as int),
{
    assert((byte & (1u8 << at) != 0) == ((byte >> at) & 1u8 == 1u8)) by (bit_vector)
        requires
            at < 8,
    ;
}

/// Merging a bit into a byte at a place that holds none sets that bit and
/// leaves the others.
proof fn lemma_set_bit(byte: u8, offset: u8, one: u8, at: u8)
    requires
        offset < 8,
        at < 8,
        one == 0 || one == 1,
        !bit_at(byte, offset as int),
    ensures
        bit_at(byte | (one << offset), at as int) == (if at == offset {
            one == 1
        } else {
            bit_at(byte, at as int)
        }),
{
    assert((((byte | (one << offset)) >> at) & 1u8 == 1u8) == (if at == offset {
        one == 1
    } else {
        (byte >> at) & 1u8 == 1u8
    })) by (bit_vector)
        requires
            offset < 8,
            at < 8,
            one == 0 || one == 1,
            !((byte >> offset) & 1u8 == 1u8),
    ;
}

/// The zero byte holds no bit.
proof fn lemma_zero_byte()
    ensures
        forall|at: int| 0 <= at < 8 ==> !bit_at(0u8, at),
{
    assert forall|at: int| 0 <= at < 8 implies !bit_at(0u8, at) by {
        let shift = at as u8;
        assert(!((0u8 >> shift) & 1u8 == 1u8)) by (bit_vector);
    }
}

} // verus!
