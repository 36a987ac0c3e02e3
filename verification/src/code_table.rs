use vstd::prelude::*;
use vstd::arithmetic::power2::pow2;
use crate::code::Code;
use crate::error::InflateError;

verus! {

/// A per-symbol codeword length; 0 marks a symbol that is absent from the
/// code.
pub type CodeLength = u8;

/// No DEFLATE alphabet assigns codewords longer than 15 bits.
pub const MAX_CODE_LENGTH: u8 = 15;

/// The largest DEFLATE alphabet, the literal/length one, has 288 symbols.
pub const MAX_SYMBOLS: usize = 288;

/// How many entries of `lengths` equal `l`.
pub open spec fn length_count(lengths: Seq<u8>, l: int) -> nat
    decreases lengths.len(),
{
    if lengths.len() == 0 {
        0
    } else {
        length_count(lengths.drop_last(), l) + if lengths.last() == l {
            1nat
        } else {
            0nat
        }
    }
}

/// The smallest codeword value of length `l` under the canonical rule of
/// RFC 1951: lengths are filled shortest first, and the first code of each
/// length continues where the previous length left off, shifted up one bit.
/// Length 0 marks absent symbols and contributes no codes.
pub open spec fn min_code(lengths: Seq<u8>, l: nat) -> nat
    decreases l,
{
    if l == 0 {
        0
    } else {
        (min_code(lengths, (l - 1) as nat) + if l - 1 == 0 {
            0nat
        } else {
            length_count(lengths, l - 1)
        }) * 2
    }
}

/// How many symbols before `i` share its code length: the position of
/// symbol `i` among the symbols of its length, in increasing symbol order.
pub open spec fn length_rank(lengths: Seq<u8>, i: int) -> nat {
    length_count(lengths.take(i), lengths[i] as int)
}

/// The codeword value the canonical rule assigns to symbol `i`.
pub open spec fn canonical_code(lengths: Seq<u8>, i: int) -> nat {
    min_code(lengths, lengths[i] as nat) + length_rank(lengths, i)
}

/// The longest codeword length that appears in `lengths`.
pub open spec fn max_of_lengths(lengths: Seq<u8>) -> u8
    decreases lengths.len(),
{
    if lengths.len() == 0 {
        0
    } else {
        let m = max_of_lengths(lengths.drop_last());
        if lengths.last() >= m {
            lengths.last()
        } else {
            m
        }
    }
}

/// A code-length array a table can be built from: non-empty, within the
/// largest alphabet, and no length beyond the format's maximum of 15.
pub open spec fn wf_lengths(lengths: Seq<u8>) -> bool {
    &&& 1 <= lengths.len() <= MAX_SYMBOLS
    &&& forall|i: int| 0 <= i < lengths.len() ==> lengths[i] <= MAX_CODE_LENGTH
}

/// `codes` is the canonical symbol-to-code table of `lengths`: entry `i`
/// carries length `lengths[i]`, and, where that length is positive, the
/// canonically assigned codeword value.
pub open spec fn codes_match(codes: Seq<Code>, lengths: Seq<u8>) -> bool {
    &&& codes.len() == lengths.len()
    &&& forall|i: int| 0 <= i < lengths.len() ==> (#[trigger] codes[i]).length == lengths[i]
    &&& forall|i: int|
        0 <= i < lengths.len() && lengths[i] > 0 ==> (#[trigger] codes[i]).bits == canonical_code(
            lengths,
            i,
        )
    &&& forall|i: int|
        0 <= i < lengths.len() && lengths[i] == 0 ==> (#[trigger] codes[i]).bits == 0
}

/// No length occurs more often than there are symbols.
pub proof fn lemma_length_count_le_len(lengths: Seq<u8>, l: int)
    ensures
        length_count(lengths, l) <= lengths.len(),
    decreases lengths.len(),
{
    if lengths.len() > 0 {
        lemma_length_count_le_len(lengths.drop_last(), l);
    }
}

/// A longer prefix counts at least as many occurrences, and strictly more
/// when the added part holds an occurrence.
pub proof fn lemma_length_count_take(lengths: Seq<u8>, l: int, i: int, j: int)
    requires
        0 <= i <= j <= lengths.len(),
    ensures
        length_count(lengths.take(i), l) <= length_count(lengths.take(j), l),
        (exists|k: int| i <= k < j && lengths[k] == l) ==> length_count(lengths.take(i), l)
            < length_count(lengths.take(j), l),
    decreases j - i,
{
    if i < j {
        lemma_length_count_take(lengths, l, i, j - 1);
        assert(lengths.take(j).drop_last() =~= lengths.take(j - 1));
        if exists|k: int| i <= k < j && lengths[k] == l {
            let k = choose|k: int| i <= k < j && lengths[k] == l;
            if k == j - 1 {
                assert(lengths.take(j).last() == l);
            }
        }
    } else {
    }
}

/// How many symbols carry a positive length no greater than `l`.
pub open spec fn count_upto(lengths: Seq<u8>, l: nat) -> nat
    decreases l,
{
    if l == 0 {
        0
    } else {
        count_upto(lengths, (l - 1) as nat) + length_count(lengths, l as int)
    }
}

proof fn lemma_count_upto_empty(l: nat)
    ensures
        count_upto(Seq::<u8>::empty(), l) == 0,
    decreases l,
{
    if l > 0 {
        lemma_count_upto_empty((l - 1) as nat);
    }
}

proof fn lemma_count_upto_drop_last(lengths: Seq<u8>, l: nat)
    requires
        lengths.len() >= 1,
    ensures
        count_upto(lengths, l) == count_upto(lengths.drop_last(), l) + if 1 <= lengths.last() <= l {
            1nat
        } else {
            0nat
        },
    decreases l,
{
    if l > 0 {
        lemma_count_upto_drop_last(lengths, (l - 1) as nat);
    }
}

/// Each symbol contributes to at most one length's count.
pub proof fn lemma_count_upto_le_len(lengths: Seq<u8>, l: nat)
    ensures
        count_upto(lengths, l) <= lengths.len(),
    decreases lengths.len(),
{
    if lengths.len() == 0 {
        assert(lengths =~= Seq::<u8>::empty());
        lemma_count_upto_empty(l);
    } else {
        lemma_count_upto_le_len(lengths.drop_last(), l);
        lemma_count_upto_drop_last(lengths, l);
    }
}

/// The canonical first code of each length stays within `2^l` times the
/// number of symbols already placed, which bounds every codeword value.
pub proof fn lemma_min_code_bound(lengths: Seq<u8>, l: nat)
    ensures
        l == 0 ==> min_code(lengths, l) == 0,
        l >= 1 ==> min_code(lengths, l) <= pow2(l) * count_upto(lengths, (l - 1) as nat),
    decreases l,
{
    if l >= 1 {
        lemma_min_code_bound(lengths, (l - 1) as nat);
        vstd::arithmetic::power2::lemma_pow2_pos((l - 1) as nat);
        vstd::arithmetic::power2::lemma_pow2_adds((l - 1) as nat, 1);
        vstd::arithmetic::power2::lemma2_to64();
        let p1 = pow2((l - 1) as nat) as int;
        let c2 = count_upto(lengths, (l - 2) as nat) as int;
        let k = (if l - 1 == 0 {
            0nat
        } else {
            length_count(lengths, l - 1)
        }) as int;
        if l == 1 {
        } else {
            assert(min_code(lengths, (l - 1) as nat) <= p1 * c2);
            assert((p1 * c2 + k) * 2 <= p1 * 2 * (c2 + k)) by (nonlinear_arith)
                requires p1 >= 1, c2 >= 0, k >= 0;
            assert(count_upto(lengths, (l - 1) as nat) == c2 + k);
        }
    }
}

/// An explicit ceiling for every canonical codeword value: with at most 288
/// symbols and lengths at most 15, values stay far below `2^32`.
pub proof fn lemma_canonical_code_small(lengths: Seq<u8>, l: nat)
    requires
        lengths.len() <= MAX_SYMBOLS,
        l <= MAX_CODE_LENGTH,
    ensures
        min_code(lengths, l) + length_count(lengths, l as int) <= 0xa0_0000,
{
    lemma_min_code_bound(lengths, l);
    lemma_length_count_le_len(lengths, l as int);
    if l >= 1 {
        lemma_count_upto_le_len(lengths, (l - 1) as nat);
        vstd::arithmetic::power2::lemma2_to64();
        if l < 15 {
            vstd::arithmetic::power2::lemma_pow2_strictly_increases(l, 15);
        }
        let p = pow2(l) as int;
        let c = count_upto(lengths, (l - 1) as nat) as int;
        assert(p * c <= 32768 * 288) by (nonlinear_arith)
            requires 0 <= p <= 32768, 0 <= c <= 288;
    }
}

/// `(len1, val1)` read as a bit string of `len1` bits is a prefix of
/// `(len2, val2)` read as one of `len2` bits.
pub open spec fn is_prefix_of(len1: int, val1: int, len2: int, val2: int) -> bool {
    &&& 0 < len1 <= len2
    &&& val1 == val2 / (pow2((len2 - len1) as nat) as int)
}

/// A legal canonical assignment: each length's codes end within `2^l`, as
/// they do whenever the lengths satisfy the Kraft inequality. Without
/// this, codeword values would overflow their bit width.
pub open spec fn assignment_fits(lengths: Seq<u8>) -> bool {
    forall|l: int|
        1 <= l <= MAX_CODE_LENGTH ==> min_code(lengths, l as nat) + length_count(lengths, l)
            <= pow2(l as nat)
}

/// Among symbols that share a code length, the canonical rule assigns
/// strictly increasing codeword values in symbol order.
pub proof fn lemma_canonical_codes_increase(lengths: Seq<u8>, i: int, j: int)
    requires
        0 <= i < j < lengths.len(),
        lengths[i] == lengths[j],
        lengths[i] > 0,
    ensures
        canonical_code(lengths, i) < canonical_code(lengths, j),
{
    lemma_length_count_take(lengths, lengths[i] as int, i, j);
    assert(exists|k: int| i <= k < j && lengths[k] == lengths[i] as int) by {
        assert(lengths[i] == lengths[i] as int);
    }
}

/// Each length's first canonical code of a longer length sits beyond all
/// shorter codes, scaled up bit by bit.
proof fn lemma_min_code_ge(lengths: Seq<u8>, l1: nat, l2: nat)
    requires
        1 <= l1 < l2,
    ensures
        min_code(lengths, l2) >= (min_code(lengths, l1) + length_count(lengths, l1 as int)) * pow2(
            (l2 - l1) as nat,
        ),
    decreases l2,
{
    vstd::arithmetic::power2::lemma2_to64();
    let m = min_code(lengths, l1) + length_count(lengths, l1 as int);
    if l2 == l1 + 1 {
        assert(min_code(lengths, l2) == m * 2);
    } else {
        lemma_min_code_ge(lengths, l1, (l2 - 1) as nat);
        vstd::arithmetic::power2::lemma_pow2_adds((l2 - 1 - l1) as nat, 1);
        vstd::arithmetic::power2::lemma_pow2_pos((l2 - 1 - l1) as nat);
        let pw = pow2((l2 - 1 - l1) as nat) as int;
        assert(min_code(lengths, l2) >= min_code(lengths, (l2 - 1) as nat) * 2);
        assert(min_code(lengths, (l2 - 1) as nat) * 2 >= (m * pw) * 2 && (m * pw) * 2 == m * (pw
            * 2)) by (nonlinear_arith)
            requires min_code(lengths, (l2 - 1) as nat) >= m * pw, m >= 0, pw >= 1;
    }
}

/// Under a legal assignment, every canonical codeword value stays below
/// `2^length`: the codeword really is `length` bits.
pub proof fn lemma_canonical_code_fits(lengths: Seq<u8>, i: int)
    requires
        wf_lengths(lengths),
        assignment_fits(lengths),
        0 <= i < lengths.len(),
        lengths[i] > 0,
    ensures
        canonical_code(lengths, i) < pow2(lengths[i] as nat),
{
    lemma_length_count_take(lengths, lengths[i] as int, i, lengths.len() as int);
    assert(exists|k: int| i <= k < lengths.len() && lengths[k] == lengths[i] as int) by {
        assert(lengths[i] == lengths[i] as int);
    }
    assert(lengths.take(lengths.len() as int) =~= lengths);
}

/// Within one legal canonical assignment, no codeword is a prefix of
/// another: the codes form a prefix-free set, so a bit-by-bit decode can
/// never confuse two symbols.
pub proof fn lemma_canonical_prefix_free(lengths: Seq<u8>, i: int, j: int)
    requires
        wf_lengths(lengths),
        assignment_fits(lengths),
        0 <= i < lengths.len(),
        0 <= j < lengths.len(),
        i != j,
        lengths[i] > 0,
        lengths[j] > 0,
    ensures
        !is_prefix_of(
            lengths[i] as int,
            canonical_code(lengths, i) as int,
            lengths[j] as int,
            canonical_code(lengths, j) as int,
        ),
{
    let li = lengths[i] as int;
    let lj = lengths[j] as int;
    let vi = canonical_code(lengths, i) as int;
    let vj = canonical_code(lengths, j) as int;
    if li == lj {
        vstd::arithmetic::power2::lemma2_to64();
        if i < j {
            lemma_canonical_codes_increase(lengths, i, j);
        } else {
            lemma_canonical_codes_increase(lengths, j, i);
        }
        assert(vj / pow2(0) as int == vj);
    } else if li < lj {
        let k = (lj - li) as nat;
        lemma_min_code_ge(lengths, li as nat, lj as nat);
        vstd::arithmetic::power2::lemma_pow2_pos(k);
        let m = (min_code(lengths, li as nat) + length_count(lengths, li)) as int;
        let pw = pow2(k) as int;
        assert(vj >= m * pw);
        assert(vj / pw >= m) by (nonlinear_arith)
            requires vj >= m * pw, pw >= 1, m >= 0, vj >= 0;
        lemma_length_count_take(lengths, li, i, lengths.len() as int);
        assert(exists|kk: int| i <= kk < lengths.len() && lengths[kk] == li) by {
            assert(lengths[i] == li);
        }
        assert(lengths.take(lengths.len() as int) =~= lengths);
        assert(vi < m);
    }
}

/// No element exceeds the maximum of the array.
pub proof fn lemma_max_of_lengths_ge(lengths: Seq<u8>, i: int)
    requires
        0 <= i < lengths.len(),
    ensures
        lengths[i] <= max_of_lengths(lengths),
    decreases lengths.len(),
{
    if i < lengths.len() - 1 {
        lemma_max_of_lengths_ge(lengths.drop_last(), i);
    }
}

/// The maximum of an array of bounded lengths is itself bounded.
pub proof fn lemma_max_of_lengths_le(lengths: Seq<u8>, bound: u8)
    requires
        forall|i: int| 0 <= i < lengths.len() ==> lengths[i] <= bound,
    ensures
        max_of_lengths(lengths) <= bound,
    decreases lengths.len(),
{
    if lengths.len() > 0 {
        lemma_max_of_lengths_le(lengths.drop_last(), bound);
    }
}

/// The longest code length that occurs in the array.
fn max_code_length(code_lengths: &Vec<CodeLength>) -> (r: u8)
    requires
        code_lengths@.len() >= 1,
    ensures
        r == max_of_lengths(code_lengths@),
{
    let mut m: u8 = 0;
    let mut i: usize = 0;
    let n = code_lengths.len();
    while i < n
        invariant
            i <= n,
            n == code_lengths@.len(),
            m == max_of_lengths(code_lengths@.take(i as int)),
        decreases n - i,
    {
        let len = code_lengths[i];
        proof {
            assert(code_lengths@.take(i + 1).drop_last() =~= code_lengths@.take(i as int));
        }
        if len > m {
            m = len;
        }
        i = i + 1;
    }
    proof {
        assert(code_lengths@.take(n as int) =~= code_lengths@);
    }
    m
}

/// Tallies how many symbols carry each code length. Index `l` of the result
/// holds the count for length `l`; index 0 is never used and stays 0.
pub fn code_length_counts(code_lengths: &Vec<CodeLength>) -> (r: Vec<u32>)
    requires
        wf_lengths(code_lengths@),
    ensures
        r@.len() == max_of_lengths(code_lengths@) + 1,
        r@[0] == 0,
        forall|l: int| 1 <= l < r@.len() ==> r@[l] == length_count(code_lengths@, l),
{
    let max = max_code_length(code_lengths);
    let mut counts: Vec<u32> = Vec::new();
    while counts.len() < max as usize + 1
        invariant
            counts@.len() <= max + 1,
            forall|l: int| 0 <= l < counts@.len() ==> counts@[l] == 0,
        decreases max + 1 - counts.len(),
    {
        counts.push(0);
    }
    let n = code_lengths.len();
    let mut i: usize = 0;
    while i < n
        invariant
            i <= n,
            n == code_lengths@.len(),
            wf_lengths(code_lengths@),
            max == max_of_lengths(code_lengths@),
            counts@.len() == max + 1,
            counts@[0] == 0,
            forall|l: int|
                1 <= l < counts@.len() ==> counts@[l] == length_count(
                    code_lengths@.take(i as int),
                    l,
                ),
        decreases n - i,
    {
        let len = code_lengths[i];
        proof {
            lemma_max_of_lengths_ge(code_lengths@, i as int);
            assert(code_lengths@.take(i + 1).drop_last() =~= code_lengths@.take(i as int));
            lemma_length_count_le_len(code_lengths@.take(i as int), len as int);
        }
        if len != 0 {
            let c = counts[len as usize];
            counts.set(len as usize, c + 1);
        }
        i = i + 1;
    }
    proof {
        assert(code_lengths@.take(n as int) =~= code_lengths@);
    }
    counts
}

/// The smallest codeword of each length, computed by the recurrence of
/// RFC 1951: each length's first code continues where the previous length's
/// codes end, shifted up one bit.
pub fn min_codes_by_length(code_lengths: &Vec<CodeLength>) -> (r: Vec<Code>)
    requires
        wf_lengths(code_lengths@),
    ensures
        r@.len() == max_of_lengths(code_lengths@) + 1,
        forall|l: int|
            0 <= l < r@.len() ==> (#[trigger] r@[l]).bits == min_code(code_lengths@, l as nat)
                && r@[l].length == l,
{
    let max = max_code_length(code_lengths);
    let counts = code_length_counts(code_lengths);
    proof {
        lemma_max_of_lengths_le(code_lengths@, MAX_CODE_LENGTH);
    }
    let mut min_codes: Vec<Code> = Vec::new();
    min_codes.push(Code { bits: 0, length: 0 });
    let mut code_bits: u32 = 0;
    let mut length: u8 = 1;
    while length <= max
        invariant
            wf_lengths(code_lengths@),
            max == max_of_lengths(code_lengths@),
            max <= MAX_CODE_LENGTH,
            counts@.len() == max + 1,
            counts@[0] == 0,
            forall|l: int| 1 <= l < counts@.len() ==> counts@[l] == length_count(code_lengths@, l),
            1 <= length <= max + 1,
            min_codes@.len() == length,
            code_bits == min_code(code_lengths@, (length - 1) as nat),
            forall|l: int|
                0 <= l < length ==> (#[trigger] min_codes@[l]).bits == min_code(
                    code_lengths@,
                    l as nat,
                ) && min_codes@[l].length == l,
        decreases max + 1 - length,
    {
        let c = counts[(length - 1) as usize];
        proof {
            lemma_canonical_code_small(code_lengths@, (length - 1) as nat);
        }
        code_bits = (code_bits + c) * 2;
        min_codes.push(Code { bits: code_bits, length });
        length = length + 1;
    }
    proof {
        lemma_max_of_lengths_le(code_lengths@, MAX_CODE_LENGTH);
    }
    min_codes
}

/// The code lengths of the fixed literal/length table: 8 bits for symbols
/// 0..=143, 9 for 144..=255, 7 for 256..=279 and 8 for 280..=287.
pub open spec fn fixed_ll_lengths() -> Seq<u8> {
    Seq::new(
        288,
        |i: int|
            if i < 144 {
                8u8
            } else if i < 256 {
                9u8
            } else if i < 280 {
                7u8
            } else {
                8u8
            },
    )
}

/// The code lengths of the fixed distance table: 5 bits for all 32 symbols.
pub open spec fn fixed_distance_lengths() -> Seq<u8> {
    Seq::new(32, |i: int| 5u8)
}

/// The symbol-to-codeword direction of a canonical Huffman table, indexed
/// by symbol.
#[derive(Debug)]
pub struct SymbolToCodeTable(pub Vec<Code>);

/// The codeword-to-symbol direction, the one a decode walks. Entry `i`
/// holds the codeword of symbol `i`; a length of 0 marks an absent symbol.
#[derive(Debug)]
pub struct CodeToSymbolTable(pub Vec<Code>);

impl PartialEq for SymbolToCodeTable {
    fn eq(&self, other: &Self) -> (r: bool) {
        codes_eq(&self.0, &other.0)
    }
}

impl vstd::std_specs::cmp::PartialEqSpecImpl for SymbolToCodeTable {
    open spec fn obeys_eq_spec() -> bool {
        true
    }

    open spec fn eq_spec(&self, other: &Self) -> bool {
        self.0@ == other.0@
    }
}

impl Eq for SymbolToCodeTable {

}

impl PartialEq for CodeToSymbolTable {
    fn eq(&self, other: &Self) -> (r: bool) {
        codes_eq(&self.0, &other.0)
    }
}

impl vstd::std_specs::cmp::PartialEqSpecImpl for CodeToSymbolTable {
    open spec fn obeys_eq_spec() -> bool {
        true
    }

    open spec fn eq_spec(&self, other: &Self) -> bool {
        self.0@ == other.0@
    }
}

impl Eq for CodeToSymbolTable {

}

fn codes_eq(a: &Vec<Code>, b: &Vec<Code>) -> (r: bool)
    ensures
        r == (a@ == b@),
{
    if a.len() != b.len() {
        return false;
    }
    let n = a.len();
    let mut i: usize = 0;
    while i < n
        invariant
            i <= n,
            n == a@.len() == b@.len(),
            forall|j: int| 0 <= j < i ==> a@[j] == b@[j],
        decreases n - i,
    {
        if !(a[i] == b[i]) {
            return false;
        }
        i = i + 1;
    }
    proof {
        assert(a@ =~= b@);
    }
    true
}

impl SymbolToCodeTable {
    /// Builds the canonical table for the given per-symbol code lengths,
    /// assigning codewords of each length consecutively in symbol order.
    pub fn from_code_lengths(code_lengths: &Vec<CodeLength>) -> (r: Self)
        requires
            wf_lengths(code_lengths@),
        ensures
            codes_match(r.0@, code_lengths@),
    {
        let ghost s = code_lengths@;
        let mut next_codes = min_codes_by_length(code_lengths);
        let mut codes: Vec<Code> = Vec::new();
        let n = code_lengths.len();
        let mut i: usize = 0;
        while i < n
            invariant
                i <= n,
                n == s.len(),
                s == code_lengths@,
                wf_lengths(s),
                next_codes@.len() == max_of_lengths(s) + 1,
                next_codes@[0].bits == 0 && next_codes@[0].length == 0,
                forall|l: int|
                    1 <= l < next_codes@.len() ==> (#[trigger] next_codes@[l]).bits == min_code(
                        s,
                        l as nat,
                    ) + length_count(s.take(i as int), l) && next_codes@[l].length == l,
                codes@.len() == i,
                forall|j: int| 0 <= j < i ==> (#[trigger] codes@[j]).length == s[j],
                forall|j: int|
                    0 <= j < i && s[j] > 0 ==> (#[trigger] codes@[j]).bits == canonical_code(s, j),
                forall|j: int| 0 <= j < i && s[j] == 0 ==> (#[trigger] codes@[j]).bits == 0,
            decreases n - i,
        {
            let len = code_lengths[i];
            proof {
                lemma_max_of_lengths_ge(s, i as int);
                assert(s.take(i + 1).drop_last() =~= s.take(i as int));
            }
            if len == 0 {
                codes.push(Code { bits: 0, length: 0 });
            } else {
                let idx = len as usize;
                let nc = next_codes[idx];
                codes.push(Code { bits: nc.bits, length: len });
                proof {
                    lemma_canonical_code_small(s, len as nat);
                    lemma_length_count_take(s, len as int, i as int, i + 1);
                    lemma_length_count_take(s, len as int, i + 1, n as int);
                    assert(length_count(s.take(n as int), len as int) == length_count(
                        s,
                        len as int,
                    )) by {
                        assert(s.take(n as int) =~= s);
                    }
                }
                next_codes.set(idx, Code { bits: nc.bits + 1, length: nc.length });
            }
            i = i + 1;
        }
        SymbolToCodeTable(codes)
    }

    /// The fixed literal/length table of RFC 1951, a precomputed constant
    /// of the format.
    pub fn fixed_ll() -> (r: Self)
        ensures
            codes_match(r.0@, fixed_ll_lengths()),
    {
        let mut lengths: Vec<u8> = Vec::new();
        let mut i: usize = 0;
        while i < 288
            invariant
                i <= 288,
                lengths@.len() == i,
                forall|j: int| 0 <= j < i ==> lengths@[j] == fixed_ll_lengths()[j],
            decreases 288 - i,
        {
            if i < 144 {
                lengths.push(8);
            } else if i < 256 {
                lengths.push(9);
            } else if i < 280 {
                lengths.push(7);
            } else {
                lengths.push(8);
            }
            i = i + 1;
        }
        proof {
            assert(lengths@ =~= fixed_ll_lengths());
        }
        Self::from_code_lengths(&lengths)
    }

    /// The fixed distance table of RFC 1951: five bits for each of the 32
    /// distance symbols.
    pub fn fixed_distance() -> (r: Self)
        ensures
            codes_match(r.0@, fixed_distance_lengths()),
    {
        let mut lengths: Vec<u8> = Vec::new();
        let mut i: usize = 0;
        while i < 32
            invariant
                i <= 32,
                lengths@.len() == i,
                forall|j: int| 0 <= j < i ==> lengths@[j] == 5,
            decreases 32 - i,
        {
            lengths.push(5);
            i = i + 1;
        }
        proof {
            assert(lengths@ =~= fixed_distance_lengths());
        }
        Self::from_code_lengths(&lengths)
    }

    /// The codeword-to-symbol table that decoding walks, carrying the same
    /// symbol-indexed codewords.
    pub fn inverse(&self) -> (r: CodeToSymbolTable)
        ensures
            r.0@ == self.0@,
    {
        let n = self.0.len();
        let mut codes: Vec<Code> = Vec::new();
        let mut i: usize = 0;
        while i < n
            invariant
                i <= n,
                n == self.0@.len(),
                codes@ == self.0@.take(i as int),
            decreases n - i,
        {
            codes.push(self.0[i]);
            proof {
                assert(codes@ =~= self.0@.take(i + 1));
            }
            i = i + 1;
        }
        proof {
            assert(codes@ =~= self.0@);
        }
        CodeToSymbolTable(codes)
    }
}

/// The canonical symbol-to-code table of `lengths`, as one value.
pub open spec fn canonical_codes_of(lengths: Seq<u8>) -> Seq<Code> {
    Seq::new(
        lengths.len(),
        |i: int|
            Code {
                bits: if lengths[i] > 0 {
                    canonical_code(lengths, i) as u32
                } else {
                    0u32
                },
                length: lengths[i],
            },
    )
}

/// A table that matches `lengths` is exactly the canonical table: the
/// codeword values are small enough that nothing is lost in the `u32`.
pub proof fn lemma_codes_match_unique(codes: Seq<Code>, lengths: Seq<u8>)
    requires
        wf_lengths(lengths),
        codes_match(codes, lengths),
    ensures
        codes =~= canonical_codes_of(lengths),
{
    assert forall|i: int| 0 <= i < lengths.len() implies codes[i] == canonical_codes_of(lengths)[i]
        by {
        if lengths[i] > 0 {
            lemma_canonical_code_small(lengths, lengths[i] as nat);
            lemma_length_count_take(lengths, lengths[i] as int, i, lengths.len() as int);
            assert(lengths.take(lengths.len() as int) =~= lengths);
            assert(canonical_code(lengths, i) <= 0xa0_0000);
        }
    }
}

/// A table a decode may walk: within the largest alphabet and with no
/// codeword longer than the format's maximum.
pub open spec fn table_wf(codes: Seq<Code>) -> bool {
    &&& codes.len() <= MAX_SYMBOLS
    &&& forall|i: int| 0 <= i < codes.len() ==> (#[trigger] codes[i]).length <= MAX_CODE_LENGTH
}

/// The longest codeword length present in the table.
pub open spec fn table_max_length(codes: Seq<Code>) -> u8
    decreases codes.len(),
{
    if codes.len() == 0 {
        0
    } else {
        let m = table_max_length(codes.drop_last());
        if codes.last().length >= m {
            codes.last().length
        } else {
            m
        }
    }
}

proof fn lemma_table_max_length_le(codes: Seq<Code>, bound: u8)
    requires
        forall|i: int| 0 <= i < codes.len() ==> (#[trigger] codes[i]).length <= bound,
    ensures
        table_max_length(codes) <= bound,
    decreases codes.len(),
{
    if codes.len() > 0 {
        lemma_table_max_length_le(codes.drop_last(), bound);
    }
}

/// The codeword value accumulated after reading `m` bits from position
/// `pos` of the stream: each new bit enters at the least-significant end,
/// so the first bit read is the most significant of the codeword.
pub open spec fn code_acc(data: Seq<u8>, pos: int, m: nat) -> nat
    decreases m,
{
    if m == 0 {
        0
    } else {
        code_acc(data, pos, (m - 1) as nat) * 2 + if crate::bit_reader::nth_bit(
            data,
            pos + m - 1,
        ) {
            1nat
        } else {
            0nat
        }
    }
}

/// An accumulated codeword of `m` bits stays below `2^m`.
pub proof fn lemma_code_acc_bound(data: Seq<u8>, pos: int, m: nat)
    ensures
        code_acc(data, pos, m) < pow2(m),
    decreases m,
{
    vstd::arithmetic::power2::lemma_pow2_pos(m);
    if m > 0 {
        lemma_code_acc_bound(data, pos, (m - 1) as nat);
        vstd::arithmetic::power2::lemma_pow2_adds((m - 1) as nat, 1);
        vstd::arithmetic::power2::lemma2_to64();
    }
}

/// The first symbol at or after index `start` whose codeword is exactly
/// `val` with positive length `len`, if any.
pub open spec fn find_symbol(codes: Seq<Code>, len: int, val: int, start: int) -> Option<int>
    decreases codes.len() - start,
{
    if start < 0 || start >= codes.len() {
        None
    } else if codes[start].length == len && len > 0 && codes[start].bits == val {
        Some(start)
    } else {
        find_symbol(codes, len, val, start + 1)
    }
}

/// A found symbol lies in the table and carries the codeword looked up.
pub proof fn lemma_find_symbol_some(codes: Seq<Code>, len: int, val: int, start: int)
    ensures
        find_symbol(codes, len, val, start) matches Some(sym) ==> start <= sym < codes.len()
            && codes[sym].length == len && codes[sym].bits == val && len > 0,
    decreases codes.len() - start,
{
    if 0 <= start < codes.len() {
        lemma_find_symbol_some(codes, len, val, start + 1);
    }
}

/// The outcome of one bit-by-bit symbol decode that has already accumulated
/// `m` bits without a match: the symbol found and the total bits it took,
/// or the failure. The walk gives up after `max` bits, the longest codeword
/// the table holds, since no longer codeword could ever match.
pub open spec fn decode_symbol_from(
    codes: Seq<Code>,
    max: int,
    data: Seq<u8>,
    start: int,
    m: int,
) -> Result<(int, int), InflateError>
    decreases max - m,
{
    if m >= max {
        Err(InflateError::InvalidCode)
    } else if start + m >= data.len() * 8 {
        Err(InflateError::IoError)
    } else {
        match find_symbol(codes, m + 1, code_acc(data, start, (m + 1) as nat) as int, 0) {
            Some(sym) => Ok((sym, m + 1)),
            None => decode_symbol_from(codes, max, data, start, m + 1),
        }
    }
}

/// The outcome of decoding one symbol from the bits at `start`: the lowest
/// symbol whose codeword matches the shortest matching prefix of the
/// stream, with the number of bits consumed.
pub open spec fn decode_symbol(codes: Seq<Code>, max: int, data: Seq<u8>, start: int) -> Result<
    (int, int),
    InflateError,
> {
    decode_symbol_from(codes, max, data, start, 0)
}

/// A successful decode names a symbol of the table and consumes between 1
/// and `max` bits, all of them available in the stream.
pub proof fn lemma_decode_symbol_ok(codes: Seq<Code>, max: int, data: Seq<u8>, start: int, m: int)
    requires
        0 <= m,
    ensures
        decode_symbol_from(codes, max, data, start, m) matches Ok(p) ==> {
            &&& 0 <= p.0 < codes.len()
            &&& m < p.1 <= max
            &&& start + p.1 <= data.len() * 8
            &&& codes[p.0].length == p.1
        },
    decreases max - m,
{
    if m < max && start + m < data.len() * 8 {
        let val = code_acc(data, start, (m + 1) as nat) as int;
        lemma_find_symbol_some(codes, m + 1, val, 0);
        lemma_decode_symbol_ok(codes, max, data, start, m + 1);
    }
}

/// The canonical table of a well-formed length array matches it: the
/// codeword values are small enough that the `u32` entries lose nothing.
pub proof fn lemma_canonical_codes_of_match(lengths: Seq<u8>)
    requires
        wf_lengths(lengths),
    ensures
        codes_match(canonical_codes_of(lengths), lengths),
{
    let codes = canonical_codes_of(lengths);
    assert forall|i: int| 0 <= i < lengths.len() && lengths[i] > 0 implies (
    #[trigger] codes[i]).bits == canonical_code(lengths, i) by {
        lemma_canonical_code_small(lengths, lengths[i] as nat);
        lemma_length_count_take(lengths, lengths[i] as int, i, lengths.len() as int);
        assert(lengths.take(lengths.len() as int) =~= lengths);
    }
}

/// Counting over a run of equal entries adds the run's width.
proof fn lemma_length_count_segment(s: Seq<u8>, c: u8, a: int, b: int, l: int)
    requires
        0 <= a <= b <= s.len(),
        forall|i: int| a <= i < b ==> s[i] == c,
    ensures
        length_count(s.take(b), l) == length_count(s.take(a), l) + if c == l {
            (b - a) as nat
        } else {
            0nat
        },
    decreases b - a,
{
    if a < b {
        lemma_length_count_segment(s, c, a, b - 1, l);
        assert(s.take(b).drop_last() =~= s.take(b - 1));
    }
}

/// The fixed literal/length code is a legal canonical assignment: its 24
/// seven-bit, 152 eight-bit and 112 nine-bit codewords all fit their
/// lengths.
pub proof fn lemma_fixed_ll_fits()
    ensures
        wf_lengths(fixed_ll_lengths()),
        assignment_fits(fixed_ll_lengths()),
{
    let s = fixed_ll_lengths();
    vstd::arithmetic::power2::lemma2_to64();
    assert forall|l: int| 1 <= l <= 15 implies length_count(s, l) == (if l == 7 {
        24nat
    } else if l == 8 {
        152nat
    } else if l == 9 {
        112nat
    } else {
        0nat
    }) by {
        lemma_length_count_segment(s, 8, 0, 144, l);
        lemma_length_count_segment(s, 9, 144, 256, l);
        lemma_length_count_segment(s, 7, 256, 280, l);
        lemma_length_count_segment(s, 8, 280, 288, l);
        assert(s.take(0) =~= Seq::<u8>::empty());
        assert(s.take(288) =~= s);
    }
    assert(min_code(s, 0) == 0);
    assert(min_code(s, 1) == 0);
    assert(min_code(s, 2) == 0);
    assert(min_code(s, 3) == 0);
    assert(min_code(s, 4) == 0);
    assert(min_code(s, 5) == 0);
    assert(min_code(s, 6) == 0);
    assert(min_code(s, 7) == 0);
    assert(min_code(s, 8) == 48);
    assert(min_code(s, 9) == 400);
    assert(min_code(s, 10) == 1024);
    assert(min_code(s, 11) == 2048);
    assert(min_code(s, 12) == 4096);
    assert(min_code(s, 13) == 8192);
    assert(min_code(s, 14) == 16384);
    assert(min_code(s, 15) == 32768);
}

proof fn lemma_table_max_length_ge(codes: Seq<Code>, i: int)
    requires
        0 <= i < codes.len(),
    ensures
        codes[i].length <= table_max_length(codes),
    decreases codes.len(),
{
    if i < codes.len() - 1 {
        lemma_table_max_length_ge(codes.drop_last(), i);
    }
}

/// A shorter accumulated read is the longer one shifted down.
proof fn lemma_code_acc_div(data: Seq<u8>, pos: int, m: nat, n: nat)
    requires
        m <= n,
    ensures
        code_acc(data, pos, m) == code_acc(data, pos, n) / pow2((n - m) as nat),
    decreases n - m,
{
    vstd::arithmetic::power2::lemma2_to64();
    if n == m {
        assert(code_acc(data, pos, n) as int / 1int == code_acc(data, pos, n) as int)
            by (nonlinear_arith);
    } else {
        lemma_code_acc_div(data, pos, m, (n - 1) as nat);
        let prev = code_acc(data, pos, (n - 1) as nat) as int;
        let acc = code_acc(data, pos, n) as int;
        let pw = pow2((n - 1 - m) as nat) as int;
        let b = if crate::bit_reader::nth_bit(data, pos + n - 1) {
            1int
        } else {
            0int
        };
        vstd::arithmetic::power2::lemma_pow2_pos((n - 1 - m) as nat);
        vstd::arithmetic::power2::lemma_pow2_adds((n - 1 - m) as nat, 1);
        assert(acc == prev * 2 + b);
        assert(acc / 2 == prev) by (nonlinear_arith)
            requires acc == prev * 2 + b, 0 <= b < 2, prev >= 0;
        vstd::arithmetic::div_mod::lemma_div_denominator(acc, 2, pw);
        assert((acc / 2) / pw == acc / (2 * pw));
        assert(code_acc(data, pos, m) == prev / pw);
        assert(2 * pw == pow2((n - m) as nat));
        assert(code_acc(data, pos, m) == acc / (2 * pw));
    }
}

proof fn lemma_find_symbol_hit(codes: Seq<Code>, len: int, val: int, start: int, s: int)
    requires
        0 <= start <= s < codes.len(),
        codes[s].length == len,
        len > 0,
        codes[s].bits == val,
        forall|t: int|
            start <= t < s ==> !((#[trigger] codes[t]).length == len && codes[t].bits == val),
    ensures
        find_symbol(codes, len, val, start) == Some(s),
    decreases codes.len() - start,
{
    if start < s {
        lemma_find_symbol_hit(codes, len, val, start + 1, s);
    }
}

proof fn lemma_find_symbol_none(codes: Seq<Code>, len: int, val: int, start: int)
    requires
        forall|t: int|
            start <= t < codes.len() ==> !((#[trigger] codes[t]).length == len && len > 0
                && codes[t].bits == val),
    ensures
        find_symbol(codes, len, val, start) is None,
    decreases codes.len() - start,
{
    if 0 <= start < codes.len() {
        lemma_find_symbol_none(codes, len, val, start + 1);
    }
}

proof fn lemma_decode_symbol_walk(
    lengths: Seq<u8>,
    codes: Seq<Code>,
    data: Seq<u8>,
    pos: int,
    s: int,
    m: int,
)
    requires
        wf_lengths(lengths),
        assignment_fits(lengths),
        codes_match(codes, lengths),
        0 <= s < lengths.len(),
        lengths[s] > 0,
        0 <= pos,
        pos + lengths[s] <= data.len() * 8,
        code_acc(data, pos, lengths[s] as nat) == canonical_code(lengths, s),
        0 <= m < lengths[s],
    ensures
        decode_symbol_from(codes, table_max_length(codes) as int, data, pos, m) == Ok::<
            (int, int),
            InflateError,
        >((s, lengths[s] as int)),
    decreases lengths[s] - m,
{
    let max = table_max_length(codes) as int;
    let ll = lengths[s] as int;
    let val = canonical_code(lengths, s) as int;
    lemma_table_max_length_ge(codes, s);
    let v1 = code_acc(data, pos, (m + 1) as nat) as int;
    lemma_code_acc_div(data, pos, (m + 1) as nat, ll as nat);
    vstd::arithmetic::power2::lemma_pow2_pos((ll - m - 1) as nat);
    if m + 1 == ll {
        assert(v1 == val) by {
            vstd::arithmetic::power2::lemma2_to64();
        }
        assert forall|t: int| 0 <= t < s implies !((#[trigger] codes[t]).length == ll
            && codes[t].bits == val) by {
            if codes[t].length == ll && codes[t].bits == val {
                assert(lengths[t] == lengths[s]);
                lemma_canonical_codes_increase(lengths, t, s);
                lemma_canonical_code_small(lengths, lengths[t] as nat);
                lemma_length_count_take(lengths, lengths[t] as int, t, lengths.len() as int);
                assert(lengths.take(lengths.len() as int) =~= lengths);
            }
        }
        lemma_find_symbol_hit(codes, ll, val, 0, s);
    } else {
        assert forall|t: int| 0 <= t < codes.len() implies !((#[trigger] codes[t]).length == m + 1
            && m + 1 > 0 && codes[t].bits == v1) by {
            if codes[t].length == m + 1 && codes[t].bits == v1 {
                assert(lengths[t] == m + 1);
                lemma_canonical_prefix_free(lengths, t, s);
                assert(canonical_code(lengths, t) == v1) by {
                    lemma_canonical_code_small(lengths, lengths[t] as nat);
                    lemma_length_count_take(lengths, lengths[t] as int, t, lengths.len() as int);
                    assert(lengths.take(lengths.len() as int) =~= lengths);
                }
                assert(is_prefix_of(m + 1, v1, ll, val));
            }
        }
        lemma_find_symbol_none(codes, m + 1, v1, 0);
        lemma_decode_symbol_walk(lengths, codes, data, pos, s, m + 1);
    }
}

/// Decoding inverts the canonical encoding: where the next bits of the
/// stream spell symbol `s`'s canonical codeword, the bit-by-bit decode
/// through the canonical table returns `s` and consumes exactly that
/// codeword, never a shorter or longer match.
pub proof fn lemma_decode_symbol_inverts(
    lengths: Seq<u8>,
    codes: Seq<Code>,
    data: Seq<u8>,
    pos: int,
    s: int,
)
    requires
        wf_lengths(lengths),
        assignment_fits(lengths),
        codes_match(codes, lengths),
        0 <= s < lengths.len(),
        lengths[s] > 0,
        0 <= pos,
        pos + lengths[s] <= data.len() * 8,
        code_acc(data, pos, lengths[s] as nat) == canonical_code(lengths, s),
    ensures
        decode_symbol(codes, table_max_length(codes) as int, data, pos) == Ok::<
            (int, int),
            InflateError,
        >((s, lengths[s] as int)),
{
    lemma_decode_symbol_walk(lengths, codes, data, pos, s, 0);
}

impl CodeToSymbolTable {
    /// The decode table for the given code lengths, built through the
    /// canonical symbol-to-code assignment.
    pub fn from_code_lengths(code_lengths: &Vec<CodeLength>) -> (r: Self)
        requires
            wf_lengths(code_lengths@),
        ensures
            codes_match(r.0@, code_lengths@),
    {
        SymbolToCodeTable::from_code_lengths(code_lengths).inverse()
    }

    /// The decode table of the fixed literal/length code.
    pub fn fixed_ll() -> (r: Self)
        ensures
            codes_match(r.0@, fixed_ll_lengths()),
    {
        SymbolToCodeTable::fixed_ll().inverse()
    }

    /// The decode table of the fixed distance code.
    pub fn fixed_distance() -> (r: Self)
        ensures
            codes_match(r.0@, fixed_distance_lengths()),
    {
        SymbolToCodeTable::fixed_distance().inverse()
    }

    /// The longest codeword length this table holds, the point at which a
    /// decode that has not matched gives up.
    fn longest_code(&self) -> (r: u8)
        ensures
            r == table_max_length(self.0@),
    {
        let mut m: u8 = 0;
        let mut i: usize = 0;
        let n = self.0.len();
        while i < n
            invariant
                i <= n,
                n == self.0@.len(),
                m == table_max_length(self.0@.take(i as int)),
            decreases n - i,
        {
            let len = self.0[i].length;
            proof {
                assert(self.0@.take(i + 1).drop_last() =~= self.0@.take(i as int));
            }
            if len > m {
                m = len;
            }
            i = i + 1;
        }
        proof {
            assert(self.0@.take(n as int) =~= self.0@);
        }
        m
    }

    /// The lowest symbol whose codeword equals `code`, if any.
    fn find(&self, code: Code) -> (r: Option<u32>)
        requires
            self.0@.len() <= MAX_SYMBOLS,
        ensures
            match r {
                Some(sym) => find_symbol(self.0@, code.length as int, code.bits as int, 0)
                    == Some(sym as int) && sym < self.0@.len(),
                None => find_symbol(self.0@, code.length as int, code.bits as int, 0) is None,
            },
    {
        let n = self.0.len();
        let mut i: usize = 0;
        while i < n
            invariant
                i <= n,
                n == self.0@.len() <= MAX_SYMBOLS,
                find_symbol(self.0@, code.length as int, code.bits as int, 0) == find_symbol(
                    self.0@,
                    code.length as int,
                    code.bits as int,
                    i as int,
                ),
            decreases n - i,
        {
            let c = self.0[i];
            if c.length == code.length && code.length > 0 && c.bits == code.bits {
                return Some(i as u32);
            }
            i = i + 1;
        }
        None
    }

    /// Decodes one symbol: starting from the empty codeword, appends one
    /// stream bit at a time and looks the accumulated codeword up, returning
    /// the first hit. Fails with `InvalidCode` once the accumulated codeword
    /// is as long as the table's longest without having matched, and with
    /// `IoError` if the stream runs out first.
    pub fn read_symbol(&self, reader: &mut crate::bit_reader::BitReader) -> (r: Result<
        u32,
        InflateError,
    >)
        requires
            table_wf(self.0@),
            old(reader).wf(),
        ensures
            final(reader).wf(),
            final(reader).data() == old(reader).data(),
            ({
                let max = table_max_length(self.0@) as int;
                let o = decode_symbol(self.0@, max, old(reader).data(), old(reader).pos());
                match r {
                    Ok(sym) => {
                        &&& o matches Ok(p)
                        &&& p.0 == sym
                        &&& final(reader).pos() == old(reader).pos() + p.1
                        &&& sym < self.0@.len()
                    },
                    Err(e) => {
                        &&& o == Err::<(int, int), InflateError>(e)
                        &&& (e == InflateError::IoError ==> final(reader).pos() == old(
                            reader,
                        ).total_bits())
                        &&& (e == InflateError::InvalidCode ==> final(reader).pos() == old(
                            reader,
                        ).pos() + max)
                    },
                }
            }),
    {
        let ghost codes = self.0@;
        let ghost data = old(reader).data();
        let ghost start = old(reader).pos();
        let max = self.longest_code();
        proof {
            lemma_table_max_length_le(codes, MAX_CODE_LENGTH);
        }
        let mut code = Code { bits: 0, length: 0 };
        while code.length < max
            invariant
                table_wf(codes),
                codes == self.0@,
                reader.wf(),
                reader.data() == data,
                data == old(reader).data(),
                start == old(reader).pos(),
                max == table_max_length(codes),
                max <= MAX_CODE_LENGTH,
                code.length <= max,
                reader.pos() == start + code.length,
                code.bits == code_acc(data, start, code.length as nat),
                decode_symbol_from(codes, max as int, data, start, 0) == decode_symbol_from(
                    codes,
                    max as int,
                    data,
                    start,
                    code.length as int,
                ),
            decreases max - code.length,
        {
            let b = match reader.read_bit() {
                Ok(b) => b,
                Err(_) => {
                    return Err(InflateError::IoError);
                },
            };
            proof {
                lemma_code_acc_bound(data, start, code.length as nat);
                vstd::arithmetic::power2::lemma2_to64();
                if (code.length as nat) < 15 {
                    vstd::arithmetic::power2::lemma_pow2_strictly_increases(
                        code.length as nat,
                        15,
                    );
                }
            }
            code = code.append_bit(b == 1);
            match self.find(code) {
                Some(sym) => {
                    return Ok(sym);
                },
                None => {
                },
            }
        }
        Err(InflateError::InvalidCode)
    }
}

} // verus!
