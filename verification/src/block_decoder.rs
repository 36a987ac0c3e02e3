use vstd::prelude::*;
use vstd::arithmetic::power2::pow2;
use crate::bit_reader::{BitReader, bits_value, lemma_bits_value_bound};
use crate::code::Code;
use crate::code_table::{
    CodeToSymbolTable, codes_match, decode_symbol, fixed_distance_lengths, fixed_ll_lengths,
    lemma_decode_symbol_ok, table_max_length, table_wf, wf_lengths, canonical_codes_of,
    lemma_codes_match_unique,
};
use crate::error::InflateError;
use crate::lz77::Instruction;

verus! {

/// The number of extra bits a back-reference length symbol carries:
/// symbols 257..=264 and 285 carry none, 265..=284 come in groups of four
/// with one to five extra bits.
pub open spec fn length_extra_bits(symbol: int) -> int {
    if symbol <= 264 {
        0
    } else if symbol <= 284 {
        (symbol - 261) / 4
    } else {
        0
    }
}

/// The back-reference length encoded by `symbol` with extra-bit value
/// `extra`: 3..=10 for the first eight symbols, 258 for symbol 285, and a
/// base plus the extra bits in between, as the standard table lays down.
pub open spec fn length_for_symbol(symbol: int, extra: int) -> int {
    if symbol <= 264 {
        symbol - 254
    } else if symbol <= 284 {
        3 + ((symbol - 265) % 4 + 4) * pow2(length_extra_bits(symbol) as nat) + extra
    } else {
        258
    }
}

/// Reading the extra bits of back-reference length symbol `symbol` at bit
/// position `pos`: the length and the position after, or the failure.
pub open spec fn spec_read_length(symbol: int, data: Seq<u8>, pos: int) -> Result<
    (int, int),
    InflateError,
>
    recommends
        257 <= symbol,
{
    if symbol > 285 {
        Err(InflateError::InvalidLengthSymbol(symbol as u16))
    } else {
        let n = length_extra_bits(symbol);
        if pos + n <= data.len() * 8 {
            Ok((length_for_symbol(symbol, bits_value(data, pos, n as nat) as int), pos + n))
        } else {
            Err(InflateError::IoError)
        }
    }
}

/// The number of extra bits a distance symbol carries: none for symbols
/// 0..=3, then one more for every further pair of symbols.
pub open spec fn distance_extra_bits(symbol: int) -> int {
    if symbol <= 3 {
        0
    } else {
        symbol / 2 - 1
    }
}

/// The back-reference distance encoded by distance symbol `symbol` with
/// extra-bit value `extra`: 1..=4 for the first four symbols, then a base
/// plus the extra bits, up to 32768, as the standard table lays down.
pub open spec fn distance_for_symbol(symbol: int, extra: int) -> int {
    if symbol <= 3 {
        symbol + 1
    } else {
        1 + (symbol % 2 + 2) * pow2(distance_extra_bits(symbol) as nat) + extra
    }
}

/// Reading a back-reference distance at `pos`: one symbol through the
/// distance table `dist`, then that symbol's extra bits.
pub open spec fn spec_read_distance(dist: Seq<Code>, data: Seq<u8>, pos: int) -> Result<
    (int, int),
    InflateError,
> {
    match decode_symbol(dist, table_max_length(dist) as int, data, pos) {
        Err(e) => Err(e),
        Ok((symbol, used)) => {
            if symbol >= 30 {
                Err(InflateError::InvalidDistanceSymbol(symbol as u8))
            } else {
                let n = distance_extra_bits(symbol);
                if pos + used + n <= data.len() * 8 {
                    Ok(
                        (
                            distance_for_symbol(
                                symbol,
                                bits_value(data, pos + used, n as nat) as int,
                            ),
                            pos + used + n,
                        ),
                    )
                } else {
                    Err(InflateError::IoError)
                }
            }
        },
    }
}

/// Reading one instruction at `pos` with the tables `ll` and `dist`
/// active: one literal/length symbol, and for the back-reference symbols
/// the length extras, one distance symbol and its extras.
pub open spec fn spec_next_instruction(
    ll: Seq<Code>,
    dist: Seq<Code>,
    data: Seq<u8>,
    pos: int,
) -> Result<(Instruction, int), InflateError> {
    match decode_symbol(ll, table_max_length(ll) as int, data, pos) {
        Err(e) => Err(e),
        Ok((symbol, used)) => {
            let p1 = pos + used;
            if symbol < 256 {
                Ok((Instruction::Literal(symbol as u8), p1))
            } else if symbol == 256 {
                Ok((Instruction::EndOfBlock, p1))
            } else {
                match spec_read_length(symbol, data, p1) {
                    Err(e) => Err(e),
                    Ok((len, p2)) => match spec_read_distance(dist, data, p2) {
                        Err(e) => Err(e),
                        Ok((d, p3)) => Ok(
                            (
                                Instruction::BackReference {
                                    length: len as u16,
                                    distance: d as u16,
                                },
                                p3,
                            ),
                        ),
                    },
                }
            }
        },
    }
}

/// Decodes the instruction stream of one fixed- or dynamic-Huffman block:
/// holds the active literal/length and distance tables and reads one
/// instruction at a time from a bit source.
#[derive(Debug)]
pub struct BlockDecoder {
    ll_table: CodeToSymbolTable,
    distance_table: CodeToSymbolTable,
}

impl BlockDecoder {
    /// The codewords of the active literal/length table, by symbol.
    pub closed spec fn ll(self) -> Seq<Code> {
        self.ll_table.0@
    }

    /// The codewords of the active distance table, by symbol.
    pub closed spec fn dist(self) -> Seq<Code> {
        self.distance_table.0@
    }

    pub open spec fn wf(self) -> bool {
        &&& table_wf(self.ll())
        &&& table_wf(self.dist())
    }

    /// The decoder for a fixed-Huffman block: both tables are constants of
    /// the format.
    pub fn new_fixed() -> (r: Self)
        ensures
            r.wf(),
            codes_match(r.ll(), fixed_ll_lengths()),
            codes_match(r.dist(), fixed_distance_lengths()),
    {
        let r = BlockDecoder {
            ll_table: CodeToSymbolTable::fixed_ll(),
            distance_table: CodeToSymbolTable::fixed_distance(),
        };
        proof {
            assert(table_wf(r.ll()));
            assert(table_wf(r.dist()));
        }
        r
    }

    /// The decoder for a dynamic-Huffman block: reads the block's header —
    /// the three counts, the permuted 3-bit lengths of the code-length
    /// alphabet, and the run-length-coded lengths of the two main alphabets
    /// — and builds both tables canonically.
    pub fn new_dynamic(reader: &mut BitReader) -> (r: Result<BlockDecoder, InflateError>)
        requires
            old(reader).wf(),
        ensures
            final(reader).wf(),
            final(reader).data() == old(reader).data(),
            ({
                let o = spec_dynamic_header(old(reader).data(), old(reader).pos());
                match r {
                    Ok(d) => {
                        &&& o matches Ok(t)
                        &&& d.wf()
                        &&& codes_match(d.ll(), t.0)
                        &&& codes_match(d.dist(), t.1)
                        &&& final(reader).pos() == t.2
                    },
                    Err(e) => o == Err::<(Seq<u8>, Seq<u8>, int), InflateError>(e),
                }
            }),
    {
        let ghost data = old(reader).data();
        let ghost start = old(reader).pos();
        proof {
            reader.lemma_pos_in_stream();
        }
        let v0 = match reader.read_bits(5) {
            Ok(v) => v,
            Err(e) => {
                return Err(e);
            },
        };
        proof {
            lemma_bits_value_bound(data, start, 5);
            vstd::arithmetic::power2::lemma2_to64();
        }
        let ll_count = v0 as usize + 257;
        let v1 = match reader.read_bits(5) {
            Ok(v) => v,
            Err(e) => {
                return Err(e);
            },
        };
        proof {
            lemma_bits_value_bound(data, start + 5, 5);
        }
        let distance_count = v1 as usize + 1;
        let v2 = match reader.read_bits(4) {
            Ok(v) => v,
            Err(e) => {
                return Err(e);
            },
        };
        proof {
            lemma_bits_value_bound(data, start + 10, 4);
        }
        let cl_count = v2 as usize + 4;
        let ghost p1 = start + 14;
        proof {
            assert(reader.pos() == p1);
        }
        // Read the permuted 3-bit lengths of the code-length alphabet.
        let mut cl_code_lengths: Vec<u8> = Vec::new();
        push_repeated(&mut cl_code_lengths, 0u8, 19);
        proof {
            assert(cl_code_lengths@ =~= spec_cl_lengths(data, p1, 0));
        }
        let mut i: usize = 0;
        while i < cl_count
            invariant
                reader.wf(),
                reader.data() == data,
                data == old(reader).data(),
                start == old(reader).pos(),
                start + 14 <= data.len() * 8,
                ll_count == bits_value(data, start, 5) + 257,
                distance_count == bits_value(data, start + 5, 5) + 1,
                cl_count == bits_value(data, start + 10, 4) + 4,
                p1 == start + 14,
                i <= cl_count <= 19,
                reader.pos() == p1 + 3 * i,
                p1 + 3 * i <= data.len() * 8,
                cl_code_lengths@ == spec_cl_lengths(data, p1, i as int),
            decreases cl_count - i,
        {
            let v = match reader.read_bits(3) {
                Ok(v) => v,
                Err(e) => {
                    proof {
                        assert(p1 + 3 * cl_count > data.len() * 8);
                    }
                    return Err(e);
                },
            };
            proof {
                lemma_bits_value_bound(data, p1 + 3 * i, 3);
                vstd::arithmetic::power2::lemma2_to64();
                lemma_spec_cl_lengths_wf(data, p1, i as int);
            }
            let index = cl_index(i);
            cl_code_lengths.set(index, v as u8);
            i = i + 1;
        }
        let ghost p2 = p1 + 3 * cl_count;
        let ghost cl_lengths_g = spec_cl_lengths(data, p1, cl_count as int);
        proof {
            lemma_spec_cl_lengths_wf(data, p1, cl_count as int);
            assert(wf_lengths(cl_code_lengths@));
        }
        let cl_table = CodeToSymbolTable::from_code_lengths(&cl_code_lengths);
        let ghost cl_codes = canonical_codes_of(cl_lengths_g);
        proof {
            lemma_codes_match_unique(cl_table.0@, cl_code_lengths@);
            assert(cl_table.0@ == cl_codes);
            assert(table_wf(cl_codes));
        }
        // Expand the run-length-coded lengths of both main alphabets.
        let target = ll_count + distance_count;
        let ghost target_g = target as int;
        let mut code_lengths: Vec<u8> = Vec::new();
        proof {
            assert(code_lengths@ =~= Seq::<u8>::empty());
        }
        while code_lengths.len() < target
            invariant
                reader.wf(),
                reader.data() == data,
                data == old(reader).data(),
                start == old(reader).pos(),
                start + 14 <= data.len() * 8,
                ll_count == bits_value(data, start, 5) + 257,
                distance_count == bits_value(data, start + 5, 5) + 1,
                cl_count == bits_value(data, start + 10, 4) + 4,
                p1 == start + 14,
                p2 == p1 + 3 * cl_count,
                p2 <= data.len() * 8,
                cl_codes == canonical_codes_of(spec_cl_lengths(data, p1, cl_count as int)),
                cl_table.0@ == cl_codes,
                table_wf(cl_codes),
                target_g == target,
                target == ll_count + distance_count,
                target <= 320,
                forall|k: int| 0 <= k < code_lengths@.len() ==> code_lengths@[k] <= 15,
                spec_expand_lengths(cl_codes, data, p2, target_g, Seq::empty())
                    == spec_expand_lengths(cl_codes, data, reader.pos(), target_g, code_lengths@),
            decreases (if code_lengths@.len() >= target_g {
                0int
            } else {
                target_g - code_lengths@.len()
            }),
        {
            let symbol = match cl_table.read_symbol(reader) {
                Ok(s) => s,
                Err(e) => {
                    return Err(e);
                },
            };
            proof {
                lemma_decode_symbol_ok(
                    cl_codes,
                    table_max_length(cl_codes) as int,
                    data,
                    reader.pos(),
                    0,
                );
            }
            if symbol <= 15 {
                code_lengths.push(symbol as u8);
            } else if symbol == 16 {
                let ghost pe = reader.pos();
                let extra = match reader.read_bits(2) {
                    Ok(v) => v,
                    Err(e) => {
                        return Err(e);
                    },
                };
                if code_lengths.len() == 0 {
                    return Err(InflateError::DynamicCodeMalformed);
                }
                let last = code_lengths[code_lengths.len() - 1];
                proof {
                    lemma_bits_value_bound(data, pe, 2);
                    vstd::arithmetic::power2::lemma2_to64();
                }
                let ghost before = code_lengths@;
                push_repeated(&mut code_lengths, last, 3 + extra as usize);
                proof {
                    assert(code_lengths@ =~= before + Seq::new(
                        (3 + bits_value(data, pe, 2)) as nat,
                        |i: int| before.last(),
                    ));
                }
            } else if symbol == 17 {
                let ghost pe = reader.pos();
                let extra = match reader.read_bits(3) {
                    Ok(v) => v,
                    Err(e) => {
                        return Err(e);
                    },
                };
                proof {
                    lemma_bits_value_bound(data, pe, 3);
                    vstd::arithmetic::power2::lemma2_to64();
                }
                let ghost before = code_lengths@;
                push_repeated(&mut code_lengths, 0u8, 3 + extra as usize);
                proof {
                    assert(code_lengths@ =~= before + Seq::new(
                        (3 + bits_value(data, pe, 3)) as nat,
                        |i: int| 0u8,
                    ));
                }
            } else if symbol == 18 {
                let ghost pe = reader.pos();
                let extra = match reader.read_bits(7) {
                    Ok(v) => v,
                    Err(e) => {
                        return Err(e);
                    },
                };
                proof {
                    lemma_bits_value_bound(data, pe, 7);
                    vstd::arithmetic::power2::lemma2_to64();
                }
                let ghost before = code_lengths@;
                push_repeated(&mut code_lengths, 0u8, 11 + extra as usize);
                proof {
                    assert(code_lengths@ =~= before + Seq::new(
                        (11 + bits_value(data, pe, 7)) as nat,
                        |i: int| 0u8,
                    ));
                }
            } else {
                return Err(InflateError::InvalidCode);
            }
        }
        let ghost p3 = reader.pos();
        let ghost expanded = code_lengths@;
        // Split into the two alphabets, padding each to its full size.
        let mut ll_lengths: Vec<u8> = Vec::new();
        let mut j: usize = 0;
        while j < 288
            invariant
                j <= 288,
                ll_lengths@.len() == j,
                ll_count <= 288,
                target <= code_lengths@.len(),
                target == ll_count + distance_count,
                code_lengths@ == expanded,
                forall|k: int| 0 <= k < code_lengths@.len() ==> code_lengths@[k] <= 15,
                forall|k: int|
                    0 <= k < j ==> ll_lengths@[k] == (if k < ll_count {
                        expanded[k]
                    } else {
                        0u8
                    }),
            decreases 288 - j,
        {
            if j < ll_count {
                ll_lengths.push(code_lengths[j]);
            } else {
                ll_lengths.push(0);
            }
            j = j + 1;
        }
        let mut distance_lengths: Vec<u8> = Vec::new();
        let mut j: usize = 0;
        while j < 32
            invariant
                j <= 32,
                distance_lengths@.len() == j,
                ll_count + distance_count <= code_lengths@.len(),
                ll_count <= 288,
                distance_count <= 32,
                code_lengths@ == expanded,
                forall|k: int| 0 <= k < code_lengths@.len() ==> code_lengths@[k] <= 15,
                forall|k: int|
                    0 <= k < j ==> distance_lengths@[k] == (if k < distance_count {
                        expanded[ll_count + k]
                    } else {
                        0u8
                    }),
            decreases 32 - j,
        {
            if j < distance_count {
                distance_lengths.push(code_lengths[ll_count + j]);
            } else {
                distance_lengths.push(0);
            }
            j = j + 1;
        }
        proof {
            let t = spec_dynamic_header(data, start);
            assert(t matches Ok(v) && v.2 == p3);
            assert(ll_lengths@ =~= t->Ok_0.0);
            assert(distance_lengths@ =~= t->Ok_0.1);
            assert(wf_lengths(ll_lengths@));
            assert(wf_lengths(distance_lengths@));
        }
        let d = BlockDecoder {
            ll_table: CodeToSymbolTable::from_code_lengths(&ll_lengths),
            distance_table: CodeToSymbolTable::from_code_lengths(&distance_lengths),
        };
        proof {
            assert(table_wf(d.ll()));
            assert(table_wf(d.dist()));
        }
        Ok(d)
    }

    /// Reads the extra bits of length symbol `symbol` and forms the
    /// back-reference length, 3..=258.
    fn read_length(&self, reader: &mut BitReader, symbol: u16) -> (r: Result<u16, InflateError>)
        requires
            old(reader).wf(),
            257 <= symbol,
        ensures
            final(reader).wf(),
            final(reader).data() == old(reader).data(),
            ({
                let o = spec_read_length(symbol as int, old(reader).data(), old(reader).pos());
                match r {
                    Ok(len) => o matches Ok(p) && p.0 == len && final(reader).pos() == p.1,
                    Err(e) => o == Err::<(int, int), InflateError>(e),
                }
            }),
    {
        proof {
            reader.lemma_pos_in_stream();
        }
        if symbol <= 264 {
            return Ok(symbol - 254);
        }
        if symbol <= 284 {
            let extra_bit_count = (symbol - 261) / 4;
            let extra_bits = match reader.read_bits(extra_bit_count as u8) {
                Ok(v) => v,
                Err(e) => {
                    return Err(e);
                },
            };
            let place = one_shl16(extra_bit_count as u8);
            proof {
                lemma_bits_value_bound(
                    old(reader).data(),
                    old(reader).pos(),
                    extra_bit_count as nat,
                );
                vstd::arithmetic::power2::lemma2_to64();
                if extra_bit_count < 5 {
                    vstd::arithmetic::power2::lemma_pow2_strictly_increases(
                        extra_bit_count as nat,
                        5,
                    );
                }
                assert((((symbol - 265) % 4 + 4) as int) * (place as int) <= 7 * 32)
                    by (nonlinear_arith)
                    requires 0 <= ((symbol - 265) % 4 + 4) as int <= 7, 0 <= place as int <= 32;
            }
            let base = ((symbol - 265) % 4 + 4) * place;
            return Ok(3 + base + extra_bits as u16);
        }
        if symbol == 285 {
            return Ok(258);
        }
        Err(InflateError::InvalidLengthSymbol(symbol))
    }

    /// Reads one distance symbol and its extra bits and forms the
    /// back-reference distance, 1..=32768.
    fn read_distance(&self, reader: &mut BitReader) -> (r: Result<u16, InflateError>)
        requires
            old(reader).wf(),
            table_wf(self.dist()),
        ensures
            final(reader).wf(),
            final(reader).data() == old(reader).data(),
            ({
                let o = spec_read_distance(self.dist(), old(reader).data(), old(reader).pos());
                match r {
                    Ok(d) => o matches Ok(p) && p.0 == d && final(reader).pos() == p.1,
                    Err(e) => o == Err::<(int, int), InflateError>(e),
                }
            }),
    {
        let symbol = match self.distance_table.read_symbol(reader) {
            Ok(s) => s,
            Err(e) => {
                return Err(e);
            },
        };
        proof {
            lemma_decode_symbol_ok(
                self.dist(),
                table_max_length(self.dist()) as int,
                old(reader).data(),
                old(reader).pos(),
                0,
            );
        }
        if symbol <= 3 {
            return Ok(symbol as u16 + 1);
        }
        if symbol <= 29 {
            let ghost mid = reader.pos();
            let extra_bit_count = symbol / 2 - 1;
            let extra_bits = match reader.read_bits(extra_bit_count as u8) {
                Ok(v) => v,
                Err(e) => {
                    return Err(e);
                },
            };
            let place = one_shl32(extra_bit_count as u8);
            proof {
                lemma_bits_value_bound(reader.data(), mid, extra_bit_count as nat);
                vstd::arithmetic::power2::lemma2_to64();
                if extra_bit_count < 13 {
                    vstd::arithmetic::power2::lemma_pow2_strictly_increases(
                        extra_bit_count as nat,
                        13,
                    );
                }
                assert(((symbol % 2 + 2) as int) * (place as int) <= 3 * 8192)
                    by (nonlinear_arith)
                    requires 0 <= (symbol % 2 + 2) as int <= 3, 0 <= place as int <= 8192;
            }
            let base = (symbol % 2 + 2) * place;
            let d = 1 + base + extra_bits;
            return Ok(d as u16);
        }
        Err(InflateError::InvalidDistanceSymbol(#[verifier::truncate] (symbol as u8)))
    }

    /// Decodes the next instruction of the block: a literal byte, the end
    /// of the block, or a back-reference.
    pub fn next(&self, reader: &mut BitReader) -> (r: Result<Instruction, InflateError>)
        requires
            self.wf(),
            old(reader).wf(),
        ensures
            final(reader).wf(),
            final(reader).data() == old(reader).data(),
            ({
                let o = spec_next_instruction(
                    self.ll(),
                    self.dist(),
                    old(reader).data(),
                    old(reader).pos(),
                );
                match r {
                    Ok(inst) => {
                        &&& o matches Ok(p)
                        &&& p.0 == inst
                        &&& final(reader).pos() == p.1
                        &&& old(reader).pos() < p.1 <= old(reader).total_bits()
                    },
                    Err(e) => o == Err::<(Instruction, int), InflateError>(e),
                }
            }),
    {
        proof {
            lemma_decode_symbol_ok(
                self.ll(),
                table_max_length(self.ll()) as int,
                old(reader).data(),
                old(reader).pos(),
                0,
            );
        }
        let symbol = match self.ll_table.read_symbol(reader) {
            Ok(s) => s,
            Err(e) => {
                return Err(e);
            },
        };
        let symbol = symbol as u16;
        if symbol < 256 {
            return Ok(Instruction::Literal(symbol as u8));
        }
        if symbol == 256 {
            return Ok(Instruction::EndOfBlock);
        }
        let length = match self.read_length(reader, symbol) {
            Ok(l) => l,
            Err(e) => {
                return Err(e);
            },
        };
        let ghost p2 = reader.pos();
        let distance = match self.read_distance(reader) {
            Ok(d) => d,
            Err(e) => {
                return Err(e);
            },
        };
        proof {
            crate::code_table::lemma_decode_symbol_ok(
                self.dist(),
                table_max_length(self.dist()) as int,
                reader.data(),
                p2,
                0,
            );
        }
        Ok(Instruction::BackReference { length, distance })
    }
}

/// A decoded instruction consumes at least one bit and stays within the
/// stream, and a back-reference's fields lie in the ranges the format
/// promises: lengths 3..=258 and distances 1..=32768.
pub proof fn lemma_spec_next_instruction_ok(
    ll: Seq<Code>,
    dist: Seq<Code>,
    data: Seq<u8>,
    pos: int,
)
    ensures
        spec_next_instruction(ll, dist, data, pos) matches Ok(p) ==> {
            &&& pos < p.1 <= data.len() * 8
            &&& (p.0 matches Instruction::BackReference { length, distance } ==> 1 <= distance
                <= 32768 && 3 <= length <= 258)
        },
{
    lemma_decode_symbol_ok(ll, table_max_length(ll) as int, data, pos, 0);
    vstd::arithmetic::power2::lemma2_to64();
    match decode_symbol(ll, table_max_length(ll) as int, data, pos) {
        Err(_) => {},
        Ok((symbol, used)) => {
            let p1 = pos + used;
            if symbol > 256 {
                match spec_read_length(symbol, data, p1) {
                    Err(_) => {},
                    Ok((len, p2)) => {
                        assert(symbol <= 285 ==> 3 <= len <= 258) by {
                            if 265 <= symbol <= 284 {
                                let e = length_extra_bits(symbol);
                                assert(1 <= e <= 5);
                                lemma_bits_value_bound(data, p1, e as nat);
                                if e < 5 {
                                    vstd::arithmetic::power2::lemma_pow2_strictly_increases(
                                        e as nat,
                                        5,
                                    );
                                }
                                let b = (symbol - 265) % 4 + 4;
                                let pw = pow2(e as nat) as int;
                                assert(8 <= b * pw <= 224) by (nonlinear_arith)
                                    requires 4 <= b <= 7, 2 <= pw <= 32;
                                assert(bits_value(data, p1, e as nat) < pw);
                            }
                        }
                        lemma_decode_symbol_ok(dist, table_max_length(dist) as int, data, p2, 0);
                        match decode_symbol(dist, table_max_length(dist) as int, data, p2) {
                            Err(_) => {},
                            Ok((dsym, dused)) => {
                                if dsym < 30 {
                                    let e = distance_extra_bits(dsym);
                                    assert(0 <= e <= 13);
                                    lemma_bits_value_bound(data, p2 + dused, e as nat);
                                    if e < 13 {
                                        vstd::arithmetic::power2::lemma_pow2_strictly_increases(
                                            e as nat,
                                            13,
                                        );
                                    }
                                    if dsym > 3 {
                                        let b = dsym % 2 + 2;
                                        let pw = pow2(e as nat) as int;
                                        assert(2 <= b * pw <= 3 * 8192) by (nonlinear_arith)
                                            requires 2 <= b <= 3, 1 <= pw <= 8192;
                                        assert(bits_value(data, p2 + dused, e as nat) < pw);
                                    }
                                }
                            },
                        }
                    },
                }
            }
        },
    }
}

/// The run-length expansion stays within the stream.
pub proof fn lemma_spec_expand_lengths_ok(
    cl: Seq<Code>,
    data: Seq<u8>,
    pos: int,
    target: int,
    acc: Seq<u8>,
)
    requires
        0 <= pos <= data.len() * 8,
    ensures
        spec_expand_lengths(cl, data, pos, target, acc) matches Ok(p) ==> {
            &&& pos <= p.1 <= data.len() * 8
            &&& target <= p.0.len()
            &&& (forall|k: int| 0 <= k < acc.len() ==> acc[k] <= 15) ==> (forall|k: int|
                0 <= k < p.0.len() ==> p.0[k] <= 15)
        },
    decreases (if acc.len() >= target { 0int } else { target - acc.len() }),
{
    if acc.len() < target {
        lemma_decode_symbol_ok(cl, table_max_length(cl) as int, data, pos, 0);
        match decode_symbol(cl, table_max_length(cl) as int, data, pos) {
        Err(_) => {},
        Ok((symbol, used)) => {
            let p1 = pos + used;
            if symbol <= 15 {
                lemma_spec_expand_lengths_ok(cl, data, p1, target, acc.push(symbol as u8));
            } else if symbol == 16 {
                if p1 + 2 <= data.len() * 8 && acc.len() > 0 {
                    lemma_spec_expand_lengths_ok(
                        cl,
                        data,
                        p1 + 2,
                        target,
                        acc + Seq::new((3 + bits_value(data, p1, 2)) as nat, |i: int| acc.last()),
                    );
                }
            } else if symbol == 17 {
                if p1 + 3 <= data.len() * 8 {
                    lemma_spec_expand_lengths_ok(
                        cl,
                        data,
                        p1 + 3,
                        target,
                        acc + Seq::new((3 + bits_value(data, p1, 3)) as nat, |i: int| 0u8),
                    );
                }
            } else if symbol == 18 {
                if p1 + 7 <= data.len() * 8 {
                    lemma_spec_expand_lengths_ok(
                        cl,
                        data,
                        p1 + 7,
                        target,
                        acc + Seq::new((11 + bits_value(data, p1, 7)) as nat, |i: int| 0u8),
                    );
                }
            }
        },
        }
    }
}

/// A parsed dynamic block header ends after its start and within the
/// stream, and both code-length arrays it yields are well-formed.
pub proof fn lemma_spec_dynamic_header_ok(data: Seq<u8>, pos: int)
    requires
        0 <= pos,
    ensures
        spec_dynamic_header(data, pos) matches Ok(t) ==> pos < t.2 <= data.len() * 8 && wf_lengths(
            t.0,
        ) && wf_lengths(t.1),
{
    if pos + 14 <= data.len() * 8 {
        let hlit = bits_value(data, pos, 5) + 257;
        let hdist = bits_value(data, pos + 5, 5) + 1;
        let hclen = bits_value(data, pos + 10, 4) + 4;
        let p1 = pos + 14;
        if p1 + 3 * hclen <= data.len() * 8 {
            let cl_codes = canonical_codes_of(spec_cl_lengths(data, p1, hclen as int));
            lemma_spec_expand_lengths_ok(
                cl_codes,
                data,
                p1 + 3 * hclen,
                (hlit + hdist) as int,
                Seq::empty(),
            );
        }
    }
}

/// Where the `i`-th 3-bit code length of a dynamic block header lands: the
/// fixed permutation order of the 19-symbol code-length alphabet.
pub open spec fn cl_symbol_order(i: int) -> int {
    if i == 0 { 16 } else if i == 1 { 17 } else if i == 2 { 18 } else if i == 3 { 0 }
    else if i == 4 { 8 } else if i == 5 { 7 } else if i == 6 { 9 } else if i == 7 { 6 }
    else if i == 8 { 10 } else if i == 9 { 5 } else if i == 10 { 11 } else if i == 11 { 4 }
    else if i == 12 { 12 } else if i == 13 { 3 } else if i == 14 { 13 } else if i == 15 { 2 }
    else if i == 16 { 14 } else if i == 17 { 1 } else { 15 }
}

fn cl_index(i: usize) -> (r: usize)
    requires
        i < 19,
    ensures
        r == cl_symbol_order(i as int),
        r < 19,
{
    if i == 0 { 16 } else if i == 1 { 17 } else if i == 2 { 18 } else if i == 3 { 0 }
    else if i == 4 { 8 } else if i == 5 { 7 } else if i == 6 { 9 } else if i == 7 { 6 }
    else if i == 8 { 10 } else if i == 9 { 5 } else if i == 10 { 11 } else if i == 11 { 4 }
    else if i == 12 { 12 } else if i == 13 { 3 } else if i == 14 { 13 } else if i == 15 { 2 }
    else if i == 16 { 14 } else if i == 17 { 1 } else { 15 }
}

/// The 19 code lengths of the code-length alphabet after `n` 3-bit fields
/// read at `pos` have been assigned in the fixed permutation order;
/// positions not yet assigned are 0.
pub open spec fn spec_cl_lengths(data: Seq<u8>, pos: int, n: int) -> Seq<u8>
    decreases n,
{
    if n <= 0 {
        Seq::new(19, |i: int| 0u8)
    } else {
        spec_cl_lengths(data, pos, n - 1).update(
            cl_symbol_order(n - 1),
            bits_value(data, pos + 3 * (n - 1), 3) as u8,
        )
    }
}

/// The assigned code lengths form a well-formed 19-entry array of 3-bit
/// values.
pub proof fn lemma_spec_cl_lengths_wf(data: Seq<u8>, pos: int, n: int)
    ensures
        spec_cl_lengths(data, pos, n).len() == 19,
        forall|i: int| 0 <= i < 19 ==> spec_cl_lengths(data, pos, n)[i] <= 7,
    decreases n,
{
    if n > 0 {
        lemma_spec_cl_lengths_wf(data, pos, n - 1);
        lemma_bits_value_bound(data, pos + 3 * (n - 1), 3);
        vstd::arithmetic::power2::lemma2_to64();
    }
}

/// Expands the run-length-coded code lengths read through the code-length
/// table `cl`, starting from `acc`, until at least `target` lengths stand:
/// symbols 0..=15 are verbatim lengths, 16 repeats the previous length 3
/// to 6 times, 17 and 18 insert runs of zeros.
pub open spec fn spec_expand_lengths(
    cl: Seq<Code>,
    data: Seq<u8>,
    pos: int,
    target: int,
    acc: Seq<u8>,
) -> Result<(Seq<u8>, int), InflateError>
    decreases (if acc.len() >= target { 0int } else { target - acc.len() }),
{
    if acc.len() >= target {
        Ok((acc, pos))
    } else {
        match decode_symbol(cl, table_max_length(cl) as int, data, pos) {
            Err(e) => Err(e),
            Ok((symbol, used)) => {
                let p1 = pos + used;
                if symbol <= 15 {
                    spec_expand_lengths(cl, data, p1, target, acc.push(symbol as u8))
                } else if symbol == 16 {
                    if p1 + 2 > data.len() * 8 {
                        Err(InflateError::IoError)
                    } else if acc.len() == 0 {
                        Err(InflateError::DynamicCodeMalformed)
                    } else {
                        spec_expand_lengths(
                            cl,
                            data,
                            p1 + 2,
                            target,
                            acc + Seq::new((3 + bits_value(data, p1, 2)) as nat, |i: int| acc.last()),
                        )
                    }
                } else if symbol == 17 {
                    if p1 + 3 > data.len() * 8 {
                        Err(InflateError::IoError)
                    } else {
                        spec_expand_lengths(
                            cl,
                            data,
                            p1 + 3,
                            target,
                            acc + Seq::new((3 + bits_value(data, p1, 3)) as nat, |i: int| 0u8),
                        )
                    }
                } else if symbol == 18 {
                    if p1 + 7 > data.len() * 8 {
                        Err(InflateError::IoError)
                    } else {
                        spec_expand_lengths(
                            cl,
                            data,
                            p1 + 7,
                            target,
                            acc + Seq::new((11 + bits_value(data, p1, 7)) as nat, |i: int| 0u8),
                        )
                    }
                } else {
                    Err(InflateError::InvalidCode)
                }
            },
        }
    }
}

/// Everything a dynamic block header determines: the 288 literal/length
/// code lengths, the 32 distance code lengths, and the bit position at
/// which the block's symbol stream starts.
pub open spec fn spec_dynamic_header(data: Seq<u8>, pos: int) -> Result<
    (Seq<u8>, Seq<u8>, int),
    InflateError,
> {
    if pos + 14 > data.len() * 8 {
        Err(InflateError::IoError)
    } else {
        let hlit = bits_value(data, pos, 5) + 257;
        let hdist = bits_value(data, pos + 5, 5) + 1;
        let hclen = bits_value(data, pos + 10, 4) + 4;
        let p1 = pos + 14;
        if p1 + 3 * hclen > data.len() * 8 {
            Err(InflateError::IoError)
        } else {
            let cl_codes = canonical_codes_of(spec_cl_lengths(data, p1, hclen as int));
            match spec_expand_lengths(
                cl_codes,
                data,
                p1 + 3 * hclen,
                (hlit + hdist) as int,
                Seq::empty(),
            ) {
                Err(e) => Err(e),
                Ok((lengths, p3)) => Ok(
                    (
                        Seq::new(288, |i: int| if i < hlit { lengths[i] } else { 0u8 }),
                        Seq::new(32, |i: int| if i < hdist { lengths[hlit + i] } else { 0u8 }),
                        p3,
                    ),
                ),
            }
        }
    }
}

/// Pushes `count` copies of `value`.
fn push_repeated<T: Copy>(v: &mut Vec<T>, value: T, count: usize)
    ensures
        final(v)@ == old(v)@ + Seq::new(count as nat, |i: int| value),
{
    let mut k: usize = 0;
    while k < count
        invariant
            k <= count,
            v@ == old(v)@ + Seq::new(k as nat, |i: int| value),
        decreases count - k,
    {
        v.push(value);
        proof {
            assert(v@ =~= old(v)@ + Seq::new((k + 1) as nat, |i: int| value));
        }
        k = k + 1;
    }
}

/// The value of bit `i` of a 16-bit field, `2^i`.
fn one_shl16(i: u8) -> (r: u16)
    requires
        i < 16,
    ensures
        r == pow2(i as nat),
{
    proof {
        vstd::bits::lemma_u16_pow2_no_overflow(i as nat);
        vstd::bits::lemma_u16_shl_is_mul(1u16, i as u16);
    }
    1u16 << (i as u16)
}

/// The value of bit `i` of a 32-bit field, `2^i`.
fn one_shl32(i: u8) -> (r: u32)
    requires
        i < 32,
    ensures
        r == pow2(i as nat),
{
    proof {
        vstd::bits::lemma_u32_pow2_no_overflow(i as nat);
        vstd::bits::lemma_u32_shl_is_mul(1u32, i as u32);
    }
    1u32 << (i as u32)
}

} // verus!
