use vstd::prelude::*;
use vstd::arithmetic::power2::pow2;

verus! {

/// The 0 and 1 characters of `s` as bits, in order; every other character
/// is passed over.
pub open spec fn str_bits(s: Seq<char>) -> Seq<bool>
    decreases s.len(),
{
    if s.len() == 0 {
        Seq::empty()
    } else {
        str_bits(s.drop_last()) + (if s.last() == '1' {
            seq![true]
        } else if s.last() == '0' {
            seq![false]
        } else {
            Seq::empty()
        })
    }
}

/// The value of up to eight bits packed from the most significant end of
/// a byte: the first bit lands in bit 7, and missing trailing bits stay 0.
pub open spec fn msb_pack(bits: Seq<bool>) -> nat
    recommends
        bits.len() <= 8,
    decreases bits.len(),
{
    if bits.len() == 0 {
        0
    } else {
        msb_pack(bits.drop_last()) + if bits.last() {
            pow2((8 - bits.len()) as nat)
        } else {
            0
        }
    }
}

/// A packed byte leaves room for every bit not yet placed.
proof fn lemma_msb_pack_bound(bits: Seq<bool>)
    requires
        bits.len() <= 8,
    ensures
        msb_pack(bits) + pow2((8 - bits.len()) as nat) <= 256,
    decreases bits.len(),
{
    vstd::arithmetic::power2::lemma2_to64();
    if bits.len() > 0 {
        lemma_msb_pack_bound(bits.drop_last());
        vstd::arithmetic::power2::lemma_pow2_adds((8 - bits.len()) as nat, 1);
    }
}

/// The value of bit `i` of a byte, `2^i`.
fn one_shl8(i: u8) -> (r: u8)
    requires
        i < 8,
    ensures
        r == pow2(i as nat),
{
    proof {
        vstd::bits::lemma_u8_pow2_no_overflow(i as nat);
        vstd::bits::lemma_u8_shl_is_mul(1u8, i);
    }
    1u8 << i
}

/// Builds a byte sequence from a string of 0 and 1 characters; any other
/// characters are ignored. Bits fill each byte from the most significant
/// end, and an incomplete final byte is padded with zeros on the right.
pub fn bit_string(s: &str) -> (r: Vec<u8>)
    ensures
        r@.len() == (str_bits(s@).len() + 7) / 8,
        forall|j: int|
            0 <= j < r@.len() ==> r@[j] == msb_pack(
                str_bits(s@).subrange(
                    8 * j,
                    if 8 * j + 8 <= str_bits(s@).len() {
                        8 * j + 8
                    } else {
                        str_bits(s@).len() as int
                    },
                ),
            ),
{
    let n = s.unicode_len();
    let mut bits: Vec<bool> = Vec::new();
    let mut i: usize = 0;
    while i < n
        invariant
            i <= n,
            n == s@.len(),
            bits@ == str_bits(s@.take(i as int)),
        decreases n - i,
    {
        let c = s.get_char(i);
        proof {
            assert(s@.take(i + 1).drop_last() =~= s@.take(i as int));
        }
        if c == '0' || c == '1' {
            bits.push(c == '1');
        }
        i = i + 1;
    }
    proof {
        assert(s@.take(n as int) =~= s@);
    }
    let m = bits.len();
    let ghost all = bits@;
    let mut bytes: Vec<u8> = Vec::new();
    let mut start: usize = 0;
    while start < m
        invariant
            all == str_bits(s@),
            m == all.len(),
            start % 8 == 0 || start == m,
            start <= m,
            bits@ == all,
            bytes@.len() == (start + 7) / 8,
            forall|j: int|
                0 <= j < bytes@.len() ==> bytes@[j] == msb_pack(
                    all.subrange(
                        8 * j,
                        if 8 * j + 8 <= m {
                            8 * j + 8
                        } else {
                            m as int
                        },
                    ),
                ),
        decreases m - start,
    {
        let hi = if m - start < 8 {
            m - start
        } else {
            8
        };
        let ghost chunk_end = if 8 * (start as int / 8) + 8 <= m {
            8 * (start as int / 8) + 8
        } else {
            m as int
        };
        proof {
            assert(start as int / 8 * 8 == start) by (nonlinear_arith)
                requires start % 8 == 0;
            assert(chunk_end == start + hi);
        }
        let mut byte: u8 = 0;
        let mut k: usize = 0;
        while k < hi
            invariant
                k <= hi <= 8,
                start + hi <= m,
                m == all.len(),
                bits@ == all,
                byte == msb_pack(all.subrange(start as int, start + k)),
            decreases hi - k,
        {
            proof {
                lemma_msb_pack_bound(all.subrange(start as int, start + k));
                vstd::arithmetic::power2::lemma_pow2_adds((7 - k) as nat, 1);
                vstd::arithmetic::power2::lemma2_to64();
                assert(all.subrange(start as int, start + k + 1).drop_last() =~= all.subrange(
                    start as int,
                    start + k,
                ));
            }
            if bits[start + k] {
                let place = one_shl8((7 - k) as u8);
                byte = byte + place;
            }
            k = k + 1;
        }
        bytes.push(byte);
        let next = if m - start < 8 {
            m
        } else {
            start + 8
        };
        proof {
            assert((start + 7) / 8 == start / 8 && (start + 8 + 7) / 8 == start / 8 + 1 && (start
                < next <= start + 8 ==> (next + 7) / 8 == start / 8 + 1)) by (nonlinear_arith)
                requires start % 8 == 0, start <= next;
            assert(byte == msb_pack(all.subrange(8 * (bytes@.len() - 1), chunk_end)));
        }
        start = next;
    }
    bytes
}

} // verus!
