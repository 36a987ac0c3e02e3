use vstd::prelude::*;
use vstd::arithmetic::power2::pow2;

verus! {

/// The character that renders bit `k` of a codeword value, counting from
/// the least-significant end.
pub open spec fn bit_char(bits: nat, k: nat) -> char {
    if bits / pow2(k) % 2 == 1 {
        '1'
    } else {
        '0'
    }
}

/// One Huffman codeword: `length` bits held in the low bits of `bits`, the
/// first bit of the codeword being the most significant of them.
/// `length == 0` marks an unused table entry, not a valid codeword.
#[derive(Clone, Copy, Debug, PartialEq, Eq, Structural)]
pub struct Code {
    pub bits: u32,
    pub length: u8,
}

impl Code {
    /// Extends the codeword by one bit at the least-significant end, as a
    /// bit-by-bit decode accumulates bits from the stream.
    pub fn append_bit(&self, bit: bool) -> (c: Code)
        requires
            self.bits < 0x8000_0000,
            self.length < 0xff,
        ensures
            c.bits == self.bits * 2 + (if bit { 1int } else { 0int }),
            c.length == self.length + 1,
    {
        Code { bits: self.bits * 2 + if bit { 1 } else { 0 }, length: self.length + 1 }
    }

    /// The codeword rendered as 0 and 1 characters, most significant bit
    /// first; the empty string for an unused entry.
    pub fn to_bit_string(&self) -> (s: String)
        requires
            self.length <= 32,
        ensures
            s@.len() == self.length,
            forall|i: int|
                0 <= i < self.length ==> s@[i] == bit_char(
                    self.bits as nat,
                    (self.length - 1 - i) as nat,
                ),
    {
        proof {
            reveal_strlit("");
            reveal_strlit("0");
            reveal_strlit("1");
        }
        let mut s = String::from_str("");
        let mut i: u8 = 0;
        while i < self.length
            invariant
                i <= self.length <= 32,
                s@.len() == i,
                forall|t: int|
                    0 <= t < i ==> s@[t] == bit_char(
                        self.bits as nat,
                        (self.length - 1 - t) as nat,
                    ),
        decreases self.length - i,
        {
            let k = self.length - 1 - i;
            let shifted = self.bits >> (k as u32);
            let b = shifted & 1;
            proof {
                reveal_strlit("0");
                reveal_strlit("1");
                vstd::bits::lemma_u32_shr_is_div(self.bits, k as u32);
                assert(shifted & 1 == shifted % 2) by (bit_vector);
            }
            s = s.concat(if b == 1 { "1" } else { "0" });
            i = i + 1;
        }
        s
    }
}

impl Default for Code {
    /// The empty codeword, the start state of a bit-by-bit decode.
    fn default() -> (c: Self)
        ensures
            c.bits == 0,
            c.length == 0,
    {
        Code { bits: 0, length: 0 }
    }
}

} // verus!
