pub mod bit_reader;
pub mod bit_string;
pub mod block_decoder;
pub mod code;
pub mod code_table;
pub mod error;
pub mod header;
pub mod lz77;

use vstd::prelude::*;
use crate::bit_reader::{BitReader, nth_bit, bits_value, align_up};
use crate::block_decoder::{
    BlockDecoder, spec_next_instruction, spec_dynamic_header, lemma_spec_next_instruction_ok,
    lemma_spec_dynamic_header_ok,
};
use crate::code::Code;
use crate::code_table::{
    canonical_codes_of, fixed_ll_lengths, fixed_distance_lengths, lemma_codes_match_unique,
    wf_lengths, code_acc, canonical_code, lemma_decode_symbol_inverts, lemma_fixed_ll_fits,
    lemma_canonical_codes_of_match,
};
use crate::error::InflateError;
use crate::header::{StreamHeader, spec_parse_header};
use crate::lz77::{History, Instruction, apply_spec, tail_cap};

verus! {

/// One stored block whose 3-bit header has just been consumed at `pos`:
/// skip to the byte boundary, read LEN and NLEN as little-endian 16-bit
/// values, demand that NLEN complement LEN, and take the next LEN raw
/// bytes, which also enter the history.
pub open spec fn spec_stored_block(data: Seq<u8>, pos: int, hist: Seq<u8>, cap: int) -> Result<
    (Seq<u8>, Seq<u8>, int),
    InflateError,
> {
    let p = align_up(pos);
    if p + 32 > data.len() * 8 {
        Err(InflateError::IoError)
    } else {
        let len = data[p / 8] + 256 * data[p / 8 + 1];
        let nlen = data[p / 8 + 2] + 256 * data[p / 8 + 3];
        if nlen != 0xffff - len {
            Err(InflateError::LengthComplementMismatch(len as u16, nlen as u16))
        } else if p + 32 + 8 * len > data.len() * 8 {
            Err(InflateError::IoError)
        } else {
            let bytes = data.subrange(p / 8 + 4, p / 8 + 4 + len);
            Ok((bytes, tail_cap(hist + bytes, cap), p + 32 + 8 * len))
        }
    }
}

/// The instruction loop of one Huffman block: decode instructions and play
/// them against the history until the end-of-block symbol. Returns the
/// emitted bytes appended to `out`, the history afterwards, and the bit
/// position after the end-of-block symbol.
pub open spec fn spec_run_block(
    ll: Seq<Code>,
    dist: Seq<Code>,
    data: Seq<u8>,
    pos: int,
    hist: Seq<u8>,
    cap: int,
    out: Seq<u8>,
) -> Result<(Seq<u8>, Seq<u8>, int), InflateError>
    decreases data.len() * 8 - pos,
    when 0 <= pos <= data.len() * 8
    via spec_run_block_dec
{
    match spec_next_instruction(ll, dist, data, pos) {
        Err(e) => Err(e),
        Ok((inst, p1)) => match inst {
            Instruction::EndOfBlock => Ok((out, hist, p1)),
            _ => match apply_spec(hist, cap, inst) {
                Err(e) => Err(e),
                Ok(he) => spec_run_block(ll, dist, data, p1, he.0, cap, out + he.1),
            },
        },
    }
}

#[via_fn]
proof fn spec_run_block_dec(
    ll: Seq<Code>,
    dist: Seq<Code>,
    data: Seq<u8>,
    pos: int,
    hist: Seq<u8>,
    cap: int,
    out: Seq<u8>,
) {
    lemma_spec_next_instruction_ok(ll, dist, data, pos);
}

/// A finished block loop ends after its start and within the stream.
pub proof fn lemma_spec_run_block_ok(
    ll: Seq<Code>,
    dist: Seq<Code>,
    data: Seq<u8>,
    pos: int,
    hist: Seq<u8>,
    cap: int,
    out: Seq<u8>,
)
    requires
        0 <= pos <= data.len() * 8,
    ensures
        spec_run_block(ll, dist, data, pos, hist, cap, out) matches Ok(t) ==> pos < t.2
            <= data.len() * 8,
    decreases data.len() * 8 - pos,
{
    lemma_spec_next_instruction_ok(ll, dist, data, pos);
    match spec_next_instruction(ll, dist, data, pos) {
        Err(_) => {},
        Ok((inst, p1)) => match inst {
            Instruction::EndOfBlock => {},
            _ => match apply_spec(hist, cap, inst) {
                Err(_) => {},
                Ok(he) => {
                    lemma_spec_run_block_ok(ll, dist, data, p1, he.0, cap, out + he.1);
                },
            },
        },
    }
}

/// One whole block at `pos`: the final-block flag, the 2-bit block type,
/// and the block's body. Returns the bytes the block emits, the history
/// afterwards, the position after the block, and the final-block flag.
pub open spec fn spec_block(data: Seq<u8>, pos: int, hist: Seq<u8>, cap: int) -> Result<
    (Seq<u8>, Seq<u8>, int, bool),
    InflateError,
> {
    if pos + 3 > data.len() * 8 {
        Err(InflateError::IoError)
    } else {
        let is_final = nth_bit(data, pos);
        let btype = bits_value(data, pos + 1, 2);
        let p1 = pos + 3;
        if btype == 0 {
            match spec_stored_block(data, p1, hist, cap) {
                Err(e) => Err(e),
                Ok(t) => Ok((t.0, t.1, t.2, is_final)),
            }
        } else if btype == 1 {
            match spec_run_block(
                canonical_codes_of(fixed_ll_lengths()),
                canonical_codes_of(fixed_distance_lengths()),
                data,
                p1,
                hist,
                cap,
                Seq::empty(),
            ) {
                Err(e) => Err(e),
                Ok(t) => Ok((t.0, t.1, t.2, is_final)),
            }
        } else if btype == 2 {
            match spec_dynamic_header(data, p1) {
                Err(e) => Err(e),
                Ok(h) => match spec_run_block(
                    canonical_codes_of(h.0),
                    canonical_codes_of(h.1),
                    data,
                    h.2,
                    hist,
                    cap,
                    Seq::empty(),
                ) {
                    Err(e) => Err(e),
                    Ok(t) => Ok((t.0, t.1, t.2, is_final)),
                },
            }
        } else {
            Err(InflateError::UnimplementedBlockType(btype as u8))
        }
    }
}

/// A decoded block ends after its start and within the stream.
pub proof fn lemma_spec_block_ok(data: Seq<u8>, pos: int, hist: Seq<u8>, cap: int)
    requires
        0 <= pos,
    ensures
        spec_block(data, pos, hist, cap) matches Ok(t) ==> pos < t.2 <= data.len() * 8,
{
    if pos + 3 <= data.len() * 8 {
        let p1 = pos + 3;
        let btype = bits_value(data, pos + 1, 2);
        if btype == 1 {
            lemma_spec_run_block_ok(
                canonical_codes_of(fixed_ll_lengths()),
                canonical_codes_of(fixed_distance_lengths()),
                data,
                p1,
                hist,
                cap,
                Seq::empty(),
            );
        } else if btype == 2 {
            lemma_spec_dynamic_header_ok(data, p1);
            match spec_dynamic_header(data, p1) {
                Err(_) => {},
                Ok(h) => {
                    lemma_spec_run_block_ok(
                        canonical_codes_of(h.0),
                        canonical_codes_of(h.1),
                        data,
                        h.2,
                        hist,
                        cap,
                        Seq::empty(),
                    );
                },
            }
        }
    }
}

/// The whole compressed body from `pos`: blocks are decoded in order,
/// their bytes concatenated onto `out`, until a block marked final has
/// been consumed.
pub open spec fn spec_blocks(data: Seq<u8>, pos: int, hist: Seq<u8>, cap: int, out: Seq<u8>) -> Result<
    (Seq<u8>, int),
    InflateError,
>
    decreases data.len() * 8 - pos,
    when 0 <= pos <= data.len() * 8
    via spec_blocks_dec
{
    match spec_block(data, pos, hist, cap) {
        Err(e) => Err(e),
        Ok(t) => if t.3 {
            Ok((out + t.0, t.2))
        } else {
            spec_blocks(data, t.2, t.1, cap, out + t.0)
        },
    }
}

#[via_fn]
proof fn spec_blocks_dec(data: Seq<u8>, pos: int, hist: Seq<u8>, cap: int, out: Seq<u8>) {
    lemma_spec_block_ok(data, pos, hist, cap);
}

/// The stream bits at `pos` spell, through the canonical code of
/// `lengths`, each byte of `payload` as a literal and then the
/// end-of-block symbol: the block body a conforming encoder emits when it
/// compresses `payload` as plain literals.
pub open spec fn spells_literals(
    lengths: Seq<u8>,
    data: Seq<u8>,
    pos: int,
    payload: Seq<u8>,
) -> bool
    decreases payload.len(),
{
    if payload.len() == 0 {
        &&& 256 < lengths.len()
        &&& lengths[256] > 0
        &&& pos + lengths[256] <= data.len() * 8
        &&& code_acc(data, pos, lengths[256] as nat) == canonical_code(lengths, 256)
    } else {
        let s = payload[0] as int;
        &&& s < lengths.len()
        &&& lengths[s] > 0
        &&& pos + lengths[s] <= data.len() * 8
        &&& code_acc(data, pos, lengths[s] as nat) == canonical_code(lengths, s)
        &&& spells_literals(lengths, data, pos + lengths[s], payload.skip(1))
    }
}

/// The literal round trip for any legal canonical code: a block body that
/// spells a payload as plain literals through the table built from
/// `lengths` decodes to exactly that payload, whatever the distance table.
pub proof fn lemma_literals_round_trip(
    lengths: Seq<u8>,
    dist: Seq<Code>,
    data: Seq<u8>,
    pos: int,
    payload: Seq<u8>,
    hist: Seq<u8>,
    cap: int,
    out: Seq<u8>,
)
    requires
        0 <= pos,
        crate::code_table::wf_lengths(lengths),
        crate::code_table::assignment_fits(lengths),
        spells_literals(lengths, data, pos, payload),
    ensures
        spec_run_block(canonical_codes_of(lengths), dist, data, pos, hist, cap, out) matches Ok(t)
            && t.0 == out + payload,
    decreases payload.len(),
{
    let codes = canonical_codes_of(lengths);
    lemma_canonical_codes_of_match(lengths);
    if payload.len() == 0 {
        let l = lengths[256] as int;
        lemma_decode_symbol_inverts(lengths, codes, data, pos, 256);
        assert(spec_next_instruction(codes, dist, data, pos) == Ok::<
            (Instruction, int),
            InflateError,
        >((Instruction::EndOfBlock, pos + l)));
        assert(out + payload =~= out);
    } else {
        let b = payload[0];
        let l = lengths[b as int] as int;
        lemma_decode_symbol_inverts(lengths, codes, data, pos, b as int);
        assert(spec_next_instruction(codes, dist, data, pos) == Ok::<
            (Instruction, int),
            InflateError,
        >((Instruction::Literal(b), pos + l)));
        let hist2 = tail_cap(hist.push(b), cap);
        lemma_literals_round_trip(
            lengths,
            dist,
            data,
            pos + l,
            payload.skip(1),
            hist2,
            cap,
            out + seq![b],
        );
        assert((out + seq![b]) + payload.skip(1) =~= out + payload);
    }
}

/// The spelling of a payload through the fixed literal/length code.
pub open spec fn spells_fixed_literals(data: Seq<u8>, pos: int, payload: Seq<u8>) -> bool {
    spells_literals(fixed_ll_lengths(), data, pos, payload)
}

/// A whole compressed body of one final fixed-Huffman block that spells
/// its payload as plain literals decodes to exactly that payload.
pub proof fn lemma_fixed_stream_round_trip(
    data: Seq<u8>,
    pos: int,
    payload: Seq<u8>,
    hist: Seq<u8>,
    cap: int,
)
    requires
        0 <= pos,
        nth_bit(data, pos),
        bits_value(data, pos + 1, 2) == 1,
        spells_fixed_literals(data, pos + 3, payload),
    ensures
        spec_blocks(data, pos, hist, cap, Seq::empty()) matches Ok(t) && t.0 == payload,
{
    lemma_fixed_ll_fits();
    lemma_literals_round_trip(
        fixed_ll_lengths(),
        canonical_codes_of(fixed_distance_lengths()),
        data,
        pos + 3,
        payload,
        hist,
        cap,
        Seq::empty(),
    );
    let o = spec_run_block(
        canonical_codes_of(fixed_ll_lengths()),
        canonical_codes_of(fixed_distance_lengths()),
        data,
        pos + 3,
        hist,
        cap,
        Seq::empty(),
    );
    match o {
        Err(_) => {},
        Ok(t) => {
            assert(Seq::<u8>::empty() + t.0 =~= t.0);
            assert(Seq::<u8>::empty() + payload =~= payload);
        },
    }
}

/// The dynamic-block literal round trip: after a dynamic header whose
/// literal/length code is a legal assignment — as any conforming
/// encoder's is — a body spelling a payload as plain literals decodes to
/// exactly that payload.
pub proof fn lemma_dynamic_stream_round_trip(
    data: Seq<u8>,
    pos: int,
    payload: Seq<u8>,
    hist: Seq<u8>,
    cap: int,
)
    requires
        0 <= pos,
        nth_bit(data, pos),
        bits_value(data, pos + 1, 2) == 2,
        spec_dynamic_header(data, pos + 3) is Ok,
        crate::code_table::assignment_fits(spec_dynamic_header(data, pos + 3)->Ok_0.0),
        spells_literals(
            spec_dynamic_header(data, pos + 3)->Ok_0.0,
            data,
            spec_dynamic_header(data, pos + 3)->Ok_0.2,
            payload,
        ),
    ensures
        spec_blocks(data, pos, hist, cap, Seq::empty()) matches Ok(t) && t.0 == payload,
{
    let h = spec_dynamic_header(data, pos + 3)->Ok_0;
    lemma_spec_dynamic_header_ok(data, pos + 3);
    lemma_literals_round_trip(
        h.0,
        canonical_codes_of(h.1),
        data,
        h.2,
        payload,
        hist,
        cap,
        Seq::empty(),
    );
    let o = spec_run_block(
        canonical_codes_of(h.0),
        canonical_codes_of(h.1),
        data,
        h.2,
        hist,
        cap,
        Seq::empty(),
    );
    match o {
        Err(_) => {},
        Ok(t) => {
            assert(Seq::<u8>::empty() + t.0 =~= t.0);
            assert(Seq::<u8>::empty() + payload =~= payload);
        },
    }
}

/// Frames `payload` as one final stored block behind the two container
/// header bytes: the conforming encoding of an arbitrary byte sequence
/// that uses no compression.
pub open spec fn stored_stream(h0: u8, h1: u8, payload: Seq<u8>) -> Seq<u8> {
    seq![
        h0,
        h1,
        1u8,
        (payload.len() % 256) as u8,
        (payload.len() / 256) as u8,
        ((0xffff - payload.len()) % 256) as u8,
        ((0xffff - payload.len()) / 256) as u8,
    ] + payload
}

/// The stored-block round trip: decoding a stream that frames any payload
/// of at most 65535 bytes as a single final stored block yields exactly
/// that payload, whatever the window capacity.
pub proof fn lemma_stored_round_trip(h0: u8, h1: u8, payload: Seq<u8>, cap: int)
    requires
        payload.len() <= 0xffff,
    ensures
        spec_blocks(stored_stream(h0, h1, payload), 16, Seq::empty(), cap, Seq::empty())
            == Ok::<(Seq<u8>, int), InflateError>(
            (payload, stored_stream(h0, h1, payload).len() * 8int),
        ),
{
    let data = stored_stream(h0, h1, payload);
    let n = payload.len() as int;
    assert(data.len() == 7 + n);
    assert(data[2] == 1u8);
    assert((1u8 >> 0u8) & 1 == 1 && (1u8 >> 1u8) & 1 == 0 && (1u8 >> 2u8) & 1 == 0)
        by (bit_vector);
    assert(nth_bit(data, 16) && !nth_bit(data, 17) && !nth_bit(data, 18));
    assert(bits_value(data, 17, 2) == 0) by {
        vstd::arithmetic::power2::lemma2_to64();
        assert(bits_value(data, 17, 0) == 0);
        assert(bits_value(data, 17, 1) == 0);
    }
    let o = spec_stored_block(data, 19, Seq::empty(), cap);
    assert(align_up(19) == 24);
    assert(data[3] + 256 * data[4] == n && data[5] + 256 * data[6] == 0xffff - n);
    assert(24 + 32 + 8 * n == data.len() * 8);
    assert(data.subrange(7, 7 + n) =~= payload);
    assert(o == Ok::<(Seq<u8>, Seq<u8>, int), InflateError>(
        (payload, tail_cap(Seq::<u8>::empty() + payload, cap), data.len() * 8int),
    ));
    assert(spec_block(data, 16, Seq::empty(), cap) == Ok::<
        (Seq<u8>, Seq<u8>, int, bool),
        InflateError,
    >((payload, tail_cap(Seq::<u8>::empty() + payload, cap), data.len() * 8int, true)));
    assert(Seq::<u8>::empty() + payload =~= payload);
}

/// Decodes one DEFLATE stream: owns the bit source and the history, reads
/// the container header up front, and then decodes block after block. A
/// decoder that has returned an error is not to be used further.
#[derive(Debug)]
pub struct Inflator {
    input: BitReader,
    pub header: StreamHeader,
    history: History,
    done: bool,
}

impl Inflator {
    /// The whole input, container header included.
    pub closed spec fn data(self) -> Seq<u8> {
        self.input.data()
    }

    /// The next unread bit position of the input.
    pub closed spec fn pos(self) -> int {
        self.input.pos()
    }

    pub open spec fn total_bits(self) -> int {
        self.data().len() * 8int
    }

    /// The window of most recently emitted bytes.
    pub closed spec fn history(self) -> Seq<u8> {
        self.history.contents()
    }

    /// The window capacity the stream header fixed.
    pub closed spec fn capacity(self) -> int {
        self.history.capacity()
    }

    /// The validated container header of the stream.
    pub closed spec fn spec_header(self) -> StreamHeader {
        self.header
    }

    /// Whether a block marked final has been consumed.
    pub closed spec fn finished(self) -> bool {
        self.done
    }

    pub closed spec fn wf(self) -> bool {
        &&& self.input.wf()
        &&& self.history.wf()
    }

    /// Whether the stream is complete: the last decoded block carried the
    /// final-block flag.
    pub fn is_finished(&self) -> (r: bool)
        ensures
            r == self.finished(),
    {
        self.done
    }

    /// Takes the whole raw input, validates the two-byte container header,
    /// and sizes the history window from it.
    pub fn try_new(input: Vec<u8>) -> (r: Result<Inflator, InflateError>)
        ensures
            match r {
                Ok(inf) => {
                    &&& input@.len() >= 2
                    &&& spec_parse_header(input@[0], input@[1]) == Ok::<StreamHeader, InflateError>(
                        inf.spec_header(),
                    )
                    &&& inf.wf()
                    &&& inf.data() == input@
                    &&& inf.pos() == 16
                    &&& inf.history() == Seq::<u8>::empty()
                    &&& inf.capacity() == vstd::arithmetic::power2::pow2(
                        (inf.spec_header().info.spec_value() + 8) as nat,
                    )
                    &&& !inf.finished()
                },
                Err(e) => (input@.len() < 2 && e == InflateError::IoError) || (input@.len() >= 2
                    && spec_parse_header(input@[0], input@[1]) == Err::<StreamHeader, InflateError>(
                    e,
                )),
            },
    {
        let mut reader = BitReader::new(input);
        let bytes = match reader.read_aligned_bytes(2) {
            Ok(b) => b,
            Err(e) => {
                return Err(e);
            },
        };
        let header = match StreamHeader::parse(bytes[0], bytes[1]) {
            Ok(h) => h,
            Err(e) => {
                return Err(e);
            },
        };
        let window = header.info.window_size();
        let history = History::new(window);
        Ok(Inflator { input: reader, header, history, done: false })
    }

    /// Reads one stored block after its 3-bit header: LEN, its complement
    /// NLEN, and LEN raw bytes, emitted verbatim and entered into the
    /// history.
    fn read_uncompressed_block(&mut self) -> (r: Result<Vec<u8>, InflateError>)
        requires
            old(self).wf(),
        ensures
            final(self).wf(),
            final(self).data() == old(self).data(),
            final(self).capacity() == old(self).capacity(),
            final(self).spec_header() == old(self).spec_header(),
            final(self).finished() == old(self).finished(),
            ({
                let o = spec_stored_block(
                    old(self).data(),
                    old(self).pos(),
                    old(self).history(),
                    old(self).capacity(),
                );
                match r {
                    Ok(v) => o == Ok::<(Seq<u8>, Seq<u8>, int), InflateError>(
                        (v@, final(self).history(), final(self).pos()),
                    ),
                    Err(e) => o == Err::<(Seq<u8>, Seq<u8>, int), InflateError>(e),
                }
            }),
    {
        let ghost data = self.input.data();
        let ghost p = align_up(self.input.pos());
        proof {
            self.input.lemma_pos_in_stream();
            let x = self.input.pos();
            assert(p % 8 == 0 && x <= p) by (nonlinear_arith)
                requires p == align_up(x), 0 <= x;
            let k = p / 8;
            assert(p == 8 * k && (p + 16) % 8 == 0 && (p + 16) / 8 == k + 2 && (p + 32) % 8 == 0
                && (p + 32) / 8 == k + 4 && align_up(p + 16) == p + 16 && align_up(p + 32) == p
                + 32) by (nonlinear_arith)
                requires p % 8 == 0, k == p / 8, p >= 0;
        }
        let length = match self.input.read_aligned_u16() {
            Ok(v) => v,
            Err(e) => {
                return Err(e);
            },
        };
        let inverse_length = match self.input.read_aligned_u16() {
            Ok(v) => v,
            Err(e) => {
                return Err(e);
            },
        };
        proof {
            assert((!length) as int == 0xffff - length as int) by (bit_vector);
        }
        if inverse_length != !length {
            return Err(InflateError::LengthComplementMismatch(length, inverse_length));
        }
        let block = match self.input.read_aligned_bytes(length as usize) {
            Ok(v) => v,
            Err(e) => {
                return Err(e);
            },
        };
        self.history.extend(block.as_slice());
        Ok(block)
    }

    /// Pulls instructions from `decoder` and plays them against the
    /// history, emitting into `out`, until the end-of-block symbol.
    fn run_block(&mut self, decoder: &BlockDecoder, out: &mut Vec<u8>) -> (r: Result<
        (),
        InflateError,
    >)
        requires
            old(self).wf(),
            decoder.wf(),
        ensures
            final(self).wf(),
            final(self).data() == old(self).data(),
            final(self).capacity() == old(self).capacity(),
            final(self).spec_header() == old(self).spec_header(),
            final(self).finished() == old(self).finished(),
            ({
                let o = spec_run_block(
                    decoder.ll(),
                    decoder.dist(),
                    old(self).data(),
                    old(self).pos(),
                    old(self).history(),
                    old(self).capacity(),
                    old(out)@,
                );
                match r {
                    Ok(_) => o == Ok::<(Seq<u8>, Seq<u8>, int), InflateError>(
                        (final(out)@, final(self).history(), final(self).pos()),
                    ),
                    Err(e) => o == Err::<(Seq<u8>, Seq<u8>, int), InflateError>(e),
                }
            }),
    {
        let ghost ll = decoder.ll();
        let ghost dist = decoder.dist();
        let ghost data0 = self.data();
        let ghost pos0 = self.pos();
        let ghost hist0 = self.history();
        let ghost cap = self.capacity();
        let ghost out0 = out@;
        proof {
            self.input.lemma_pos_in_stream();
        }
        loop
            invariant
                self.wf(),
                decoder.wf(),
                ll == decoder.ll(),
                dist == decoder.dist(),
                data0 == old(self).data(),
                pos0 == old(self).pos(),
                hist0 == old(self).history(),
                cap == old(self).capacity(),
                out0 == old(out)@,
                self.data() == data0,
                self.capacity() == cap,
                self.spec_header() == old(self).spec_header(),
                self.finished() == old(self).finished(),
                0 <= self.pos() <= self.total_bits(),
                spec_run_block(ll, dist, data0, pos0, hist0, cap, out0) == spec_run_block(
                    ll,
                    dist,
                    data0,
                    self.pos(),
                    self.history(),
                    cap,
                    out@,
                ),
            decreases self.total_bits() - self.pos(),
        {
            let ghost pos_before = self.pos();
            proof {
                lemma_spec_next_instruction_ok(ll, dist, data0, pos_before);
            }
            let inst = match decoder.next(&mut self.input) {
                Ok(i) => i,
                Err(e) => {
                    return Err(e);
                },
            };
            match inst {
                Instruction::EndOfBlock => {
                    return Ok(());
                },
                _ => {
                    match self.history.apply_instruction(inst, out) {
                        Ok(_) => {},
                        Err(e) => {
                            return Err(e);
                        },
                    }
                },
            }
        }
    }

    /// Decodes one block: the final-block flag, the 2-bit type, and the
    /// block's body, dispatched to stored, fixed-Huffman or
    /// dynamic-Huffman handling; type 3 is reserved and fatal. The block's
    /// bytes are returned and the final-block flag is recorded.
    pub fn next_block(&mut self) -> (r: Result<Vec<u8>, InflateError>)
        requires
            old(self).wf(),
        ensures
            final(self).wf(),
            final(self).data() == old(self).data(),
            final(self).capacity() == old(self).capacity(),
            final(self).spec_header() == old(self).spec_header(),
            ({
                let o = spec_block(
                    old(self).data(),
                    old(self).pos(),
                    old(self).history(),
                    old(self).capacity(),
                );
                match r {
                    Ok(out) => {
                        &&& o matches Ok(t)
                        &&& out@ == t.0
                        &&& final(self).history() == t.1
                        &&& final(self).pos() == t.2
                        &&& final(self).finished() == t.3
                        &&& old(self).pos() < t.2 <= old(self).total_bits()
                    },
                    Err(e) => o == Err::<(Seq<u8>, Seq<u8>, int, bool), InflateError>(e),
                }
            }),
    {
        let ghost data = self.data();
        let ghost pos0 = self.pos();
        let ghost hist0 = self.history();
        let ghost cap = self.capacity();
        proof {
            self.input.lemma_pos_in_stream();
            lemma_spec_block_ok(data, pos0, hist0, cap);
        }
        let fb = match self.input.read_bit() {
            Ok(b) => b,
            Err(e) => {
                return Err(e);
            },
        };
        let is_final = fb == 1;
        let block_type = match self.input.read_bits(2) {
            Ok(v) => v,
            Err(e) => {
                return Err(e);
            },
        };
        proof {
            crate::bit_reader::lemma_bits_value_bound(data, pos0 + 1, 2);
            vstd::arithmetic::power2::lemma2_to64();
        }
        let out: Vec<u8>;
        if block_type == 0 {
            out = match self.read_uncompressed_block() {
                Ok(v) => v,
                Err(e) => {
                    return Err(e);
                },
            };
        } else if block_type == 1 {
            let decoder = BlockDecoder::new_fixed();
            proof {
                assert(wf_lengths(fixed_ll_lengths()));
                assert(wf_lengths(fixed_distance_lengths()));
                lemma_codes_match_unique(decoder.ll(), fixed_ll_lengths());
                lemma_codes_match_unique(decoder.dist(), fixed_distance_lengths());
            }
            let mut v: Vec<u8> = Vec::new();
            match self.run_block(&decoder, &mut v) {
                Ok(_) => {},
                Err(e) => {
                    return Err(e);
                },
            }
            out = v;
        } else if block_type == 2 {
            proof {
                lemma_spec_dynamic_header_ok(data, pos0 + 3);
            }
            let decoder = match BlockDecoder::new_dynamic(&mut self.input) {
                Ok(d) => d,
                Err(e) => {
                    return Err(e);
                },
            };
            proof {
                let h = spec_dynamic_header(data, pos0 + 3)->Ok_0;
                lemma_codes_match_unique(decoder.ll(), h.0);
                lemma_codes_match_unique(decoder.dist(), h.1);
            }
            let mut v: Vec<u8> = Vec::new();
            match self.run_block(&decoder, &mut v) {
                Ok(_) => {},
                Err(e) => {
                    return Err(e);
                },
            }
            out = v;
        } else {
            return Err(InflateError::UnimplementedBlockType(block_type as u8));
        }
        self.done = is_final;
        Ok(out)
    }

    /// Decodes block after block until one marked final has been consumed,
    /// returning every byte of the stream in order.
    pub fn decode_all(&mut self) -> (r: Result<Vec<u8>, InflateError>)
        requires
            old(self).wf(),
            !old(self).finished(),
        ensures
            final(self).wf(),
            final(self).data() == old(self).data(),
            final(self).capacity() == old(self).capacity(),
            final(self).spec_header() == old(self).spec_header(),
            ({
                let o = spec_blocks(
                    old(self).data(),
                    old(self).pos(),
                    old(self).history(),
                    old(self).capacity(),
                    Seq::empty(),
                );
                match r {
                    Ok(out) => o == Ok::<(Seq<u8>, int), InflateError>((out@, final(self).pos()))
                        && final(self).finished(),
                    Err(e) => o == Err::<(Seq<u8>, int), InflateError>(e),
                }
            }),
    {
        let ghost data0 = self.data();
        let ghost pos0 = self.pos();
        let ghost hist0 = self.history();
        let ghost cap = self.capacity();
        let mut out: Vec<u8> = Vec::new();
        proof {
            self.input.lemma_pos_in_stream();
            assert(out@ =~= Seq::<u8>::empty());
        }
        while !self.done
            invariant
                self.wf(),
                data0 == old(self).data(),
                pos0 == old(self).pos(),
                hist0 == old(self).history(),
                cap == old(self).capacity(),
                self.data() == data0,
                self.capacity() == cap,
                self.spec_header() == old(self).spec_header(),
                0 <= self.pos() <= self.total_bits(),
                !self.finished() ==> spec_blocks(data0, pos0, hist0, cap, Seq::empty())
                    == spec_blocks(data0, self.pos(), self.history(), cap, out@),
                self.finished() ==> spec_blocks(data0, pos0, hist0, cap, Seq::empty())
                    == Ok::<(Seq<u8>, int), InflateError>((out@, self.pos())),
            decreases self.total_bits() - self.pos(),
        {
            let ghost pos_before = self.pos();
            let ghost hist_before = self.history();
            proof {
                lemma_spec_block_ok(data0, pos_before, hist_before, cap);
            }
            let mut block = match self.next_block() {
                Ok(b) => b,
                Err(e) => {
                    return Err(e);
                },
            };
            let ghost out_before = out@;
            let ghost block_view = block@;
            out.append(&mut block);
            proof {
                assert(out@ == out_before + block_view);
            }
        }
        Ok(out)
    }
}

} // verus!
