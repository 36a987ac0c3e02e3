use vstd::prelude::*;
use vstd::arithmetic::power2::pow2;
use crate::error::InflateError;

verus! {

/// True when bit `i` of the byte stream `data` is set. Bits are numbered
/// starting from the least-significant bit of each byte, the order in which
/// DEFLATE consumes them.
pub open spec fn nth_bit(data: Seq<u8>, i: int) -> bool {
    (data[i / 8] >> ((i % 8) as u8)) & 1 == 1
}

/// The value of the `n` bits starting at bit position `i`, packed
/// least-significant bit first: the first bit read lands in the lowest
/// position of the result.
pub open spec fn bits_value(data: Seq<u8>, i: int, n: nat) -> nat
    decreases n,
{
    if n == 0 {
        0
    } else {
        bits_value(data, i, (n - 1) as nat) + (if nth_bit(data, i + n - 1) {
            pow2((n - 1) as nat)
        } else {
            0
        })
    }
}

/// The first bit position at or after `i` that lies on a byte boundary.
pub open spec fn align_up(i: int) -> int {
    if i % 8 == 0 {
        i
    } else {
        i + 8 - i % 8
    }
}

/// Any sequence of `n` bits packed least-significant first stays below `2^n`.
pub proof fn lemma_bits_value_bound(data: Seq<u8>, i: int, n: nat)
    ensures
        bits_value(data, i, n) < pow2(n),
    decreases n,
{
    vstd::arithmetic::power2::lemma_pow2_pos(n);
    if n > 0 {
        lemma_bits_value_bound(data, i, (n - 1) as nat);
        vstd::arithmetic::power2::lemma_pow2_adds((n - 1) as nat, 1);
        vstd::arithmetic::power2::lemma2_to64();
    }
}

/// The value of a single bit at position `i` of a packed field, `2^i`.
fn one_shl(i: u8) -> (r: u32)
    requires
        i < 32,
    ensures
        r == pow2(i as nat),
{
    proof {
        vstd::bits::lemma_u32_pow2_no_overflow(i as nat);
        vstd::bits::lemma_u32_shl_is_mul(1u32, i as u32);
    }
    1u32 << (i as u32)
}

/// Exposes a byte sequence as an ordered stream of bits, least-significant
/// bit first within each byte, with an operation to discard any partially
/// consumed byte and resume on a byte boundary.
#[derive(Debug)]
pub struct BitReader {
    data: Vec<u8>,
    byte_pos: usize,
    bit_off: u8,
}

impl BitReader {
    /// The bytes the reader was created over; reading never changes them.
    pub closed spec fn data(self) -> Seq<u8> {
        self.data@
    }

    /// The position of the next unread bit.
    pub closed spec fn pos(self) -> int {
        self.byte_pos * 8 + self.bit_off
    }

    /// The number of bits in the whole stream.
    pub open spec fn total_bits(self) -> int {
        self.data().len() * 8int
    }

    pub closed spec fn wf(self) -> bool {
        &&& self.bit_off < 8
        &&& self.byte_pos <= self.data@.len()
        &&& (self.byte_pos == self.data@.len() ==> self.bit_off == 0)
    }

    /// A well-formed reader's position lies within the stream.
    pub proof fn lemma_pos_in_stream(self)
        requires
            self.wf(),
        ensures
            0 <= self.pos() <= self.total_bits(),
    {
        assert(self.byte_pos * 8 <= self.data@.len() * 8) by (nonlinear_arith)
            requires self.byte_pos <= self.data@.len();
        if self.byte_pos == self.data@.len() {
        } else {
            assert(self.byte_pos * 8 + 8 <= self.data@.len() * 8) by (nonlinear_arith)
                requires self.byte_pos < self.data@.len();
        }
    }

    pub fn new(input: Vec<u8>) -> (r: BitReader)
        ensures
            r.wf(),
            r.data() == input@,
            r.pos() == 0,
    {
        BitReader { data: input, byte_pos: 0, bit_off: 0 }
    }

    /// Consumes and returns the next bit of the stream as 0 or 1.
    pub fn read_bit(&mut self) -> (r: Result<u8, InflateError>)
        requires
            old(self).wf(),
        ensures
            final(self).wf(),
            final(self).data() == old(self).data(),
            match r {
                Ok(b) => {
                    &&& old(self).pos() < old(self).total_bits()
                    &&& final(self).pos() == old(self).pos() + 1
                    &&& b <= 1
                    &&& ((b == 1) <==> nth_bit(old(self).data(), old(self).pos()))
                },
                Err(e) => {
                    &&& e == InflateError::IoError
                    &&& old(self).pos() == old(self).total_bits()
                    &&& final(self).pos() == old(self).pos()
                },
            },
    {
        if self.byte_pos == self.data.len() {
            return Err(InflateError::IoError);
        }
        let byte = self.data[self.byte_pos];
        let off = self.bit_off;
        let b = (byte >> off) & 1;
        proof {
            let p = self.pos();
            assert((self.byte_pos * 8 + self.bit_off) / 8 == self.byte_pos
                && (self.byte_pos * 8 + self.bit_off) % 8 == self.bit_off) by (nonlinear_arith)
                requires self.bit_off < 8;
            assert(b <= 1 && ((b == 1) <==> (byte >> off) & 1 == 1)) by (bit_vector)
                requires b == (byte >> off) & 1;
            assert(self.byte_pos < self.data@.len());
        }
        if self.bit_off == 7 {
            self.bit_off = 0;
            self.byte_pos = self.byte_pos + 1;
        } else {
            self.bit_off = self.bit_off + 1;
        }
        Ok(b)
    }

    /// Reads `count` bits and packs them least-significant bit first, as
    /// DEFLATE packs its multi-bit header fields.
    pub fn read_bits(&mut self, count: u8) -> (r: Result<u32, InflateError>)
        requires
            old(self).wf(),
            count <= 32,
        ensures
            final(self).wf(),
            final(self).data() == old(self).data(),
            match r {
                Ok(v) => {
                    &&& old(self).pos() + count <= old(self).total_bits()
                    &&& final(self).pos() == old(self).pos() + count
                    &&& v == bits_value(old(self).data(), old(self).pos(), count as nat)
                },
                Err(e) => {
                    &&& e == InflateError::IoError
                    &&& old(self).pos() + count > old(self).total_bits()
                    &&& final(self).pos() == old(self).total_bits()
                },
            },
    {
        let ghost start = self.pos();
        let ghost data = self.data();
        proof {
            vstd::arithmetic::power2::lemma2_to64();
            self.lemma_pos_in_stream();
        }
        let mut value: u32 = 0;
        let mut i: u8 = 0;
        while i < count
            invariant
                self.wf(),
                start == old(self).pos(),
                data == old(self).data(),
                self.data() == data,
                count <= 32,
                i <= count,
                self.pos() == start + i,
                start + i <= self.total_bits(),
                value == bits_value(data, start, i as nat),
                value < pow2(i as nat),
            decreases count - i,
        {
            let b = match self.read_bit() {
                Ok(b) => b,
                Err(_) => {
                    return Err(InflateError::IoError);
                },
            };
            let place = one_shl(i);
            proof {
                lemma_bits_value_bound(data, start, (i + 1) as nat);
                vstd::arithmetic::power2::lemma_pow2_adds(i as nat, 1);
                vstd::arithmetic::power2::lemma2_to64();
                if i + 1 < 32 {
                    vstd::arithmetic::power2::lemma_pow2_strictly_increases((i + 1) as nat, 32);
                }
            }
            if b == 1 {
                value = value + place;
            }
            i = i + 1;
        }
        Ok(value)
    }

    /// Discards any partially consumed byte so that the next read starts on
    /// a byte boundary, as a stored block requires.
    pub fn align_to_byte(&mut self)
        requires
            old(self).wf(),
        ensures
            final(self).wf(),
            final(self).data() == old(self).data(),
            final(self).pos() == align_up(old(self).pos()),
            final(self).pos() % 8 == 0,
    {
        proof {
            assert((self.byte_pos * 8 + self.bit_off) % 8 == self.bit_off
                && self.byte_pos * 8 % 8 == 0
                && (self.byte_pos + 1) * 8 % 8 == 0
                && (self.byte_pos + 1) * 8 == self.byte_pos * 8 + 8) by (nonlinear_arith)
                requires self.bit_off < 8;
        }
        if self.bit_off != 0 {
            let n = self.data.len();
            assert(self.byte_pos < n);
            self.bit_off = 0;
            self.byte_pos = self.byte_pos + 1;
        }
    }

    /// Reads a 16-bit little-endian value from the next byte boundary,
    /// discarding any partially consumed byte first.
    pub fn read_aligned_u16(&mut self) -> (r: Result<u16, InflateError>)
        requires
            old(self).wf(),
        ensures
            final(self).wf(),
            final(self).data() == old(self).data(),
            match r {
                Ok(v) => {
                    &&& align_up(old(self).pos()) + 16 <= old(self).total_bits()
                    &&& final(self).pos() == align_up(old(self).pos()) + 16
                    &&& v == old(self).data()[align_up(old(self).pos()) / 8]
                        + 256 * old(self).data()[align_up(old(self).pos()) / 8 + 1]
                },
                Err(e) => {
                    &&& e == InflateError::IoError
                    &&& align_up(old(self).pos()) + 16 > old(self).total_bits()
                    &&& final(self).pos() == old(self).total_bits()
                },
            },
    {
        self.align_to_byte();
        proof {
            let n = self.data@.len() as int;
            assert(self.byte_pos * 8 / 8 == self.byte_pos
                && (self.byte_pos * 8 + 16 == (self.byte_pos + 2) * 8)
                && (self.byte_pos + 2 <= n ==> (self.byte_pos + 2) * 8 <= n * 8)
                && (self.byte_pos + 2 > n ==> (self.byte_pos + 2) * 8 > n * 8)) by (nonlinear_arith);
            assert(self.byte_pos * 8 + self.bit_off == self.byte_pos * 8);
        }
        if self.data.len() - self.byte_pos < 2 {
            self.byte_pos = self.data.len();
            return Err(InflateError::IoError);
        }
        let lo = self.data[self.byte_pos];
        let hi = self.data[self.byte_pos + 1];
        self.byte_pos = self.byte_pos + 2;
        Ok(lo as u16 + 256 * (hi as u16))
    }

    /// Reads `count` raw bytes from the next byte boundary, discarding any
    /// partially consumed byte first.
    pub fn read_aligned_bytes(&mut self, count: usize) -> (r: Result<Vec<u8>, InflateError>)
        requires
            old(self).wf(),
        ensures
            final(self).wf(),
            final(self).data() == old(self).data(),
            match r {
                Ok(v) => {
                    &&& align_up(old(self).pos()) + 8 * count <= old(self).total_bits()
                    &&& final(self).pos() == align_up(old(self).pos()) + 8 * count
                    &&& v@ == old(self).data().subrange(
                        align_up(old(self).pos()) / 8,
                        align_up(old(self).pos()) / 8 + count,
                    )
                },
                Err(e) => {
                    &&& e == InflateError::IoError
                    &&& align_up(old(self).pos()) + 8 * count > old(self).total_bits()
                    &&& final(self).pos() == old(self).total_bits()
                },
            },
    {
        self.align_to_byte();
        let start = self.byte_pos;
        proof {
            let n = self.data@.len() as int;
            assert(start * 8 / 8 == start
                && start * 8 + 8 * count == (start + count) * 8
                && (start + count <= n ==> (start + count) * 8 <= n * 8)
                && (start + count > n ==> (start + count) * 8 > n * 8)) by (nonlinear_arith);
            assert(start * 8 + self.bit_off == start * 8);
        }
        if self.data.len() - self.byte_pos < count {
            self.byte_pos = self.data.len();
            return Err(InflateError::IoError);
        }
        let mut out: Vec<u8> = Vec::new();
        let mut j: usize = 0;
        while j < count
            invariant
                self.wf(),
                self.data() == old(self).data(),
                self.byte_pos == start,
                j <= count,
                start + count <= self.data@.len(),
                self.data@.len() <= usize::MAX,
                out@ == self.data@.subrange(start as int, start + j),
            decreases count - j,
        {
            out.push(self.data[start + j]);
            proof {
                assert(out@ =~= self.data@.subrange(start as int, start + j + 1));
            }
            j = j + 1;
        }
        self.byte_pos = start + count;
        Ok(out)
    }
}

} // verus!
