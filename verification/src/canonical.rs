//! Canonical prefix codes: codes that are fixed by the code lengths alone.
//!
//! Codes of one length are consecutive numbers, given to the symbols in
//! ascending order; the first code of a length follows from the number of
//! shorter codes. A code of length `n` is written with its heaviest bit
//! first.

use crate::bits::{value_forward, Bits};
use crate::error::DecodeError;
use vstd::arithmetic::power2::{lemma2_to64, lemma_pow2_unfold, pow2};
use vstd::prelude::*;

verus! {

/// The longest code, in bits.
pub const MAX_BITS_IN_CODE: usize = 15;

/// The largest alphabet that a table can hold.
pub const MAX_SYMBOLS: usize = 288;

/// The number of symbols below `upto` whose code has length `len`.
pub open spec fn count_of_length(lengths: Seq<u8>, len: int, upto: int) -> nat
    decreases upto,
{
    if upto <= 0 {
        0
    } else {
        count_of_length(lengths, len, upto - 1) + (if lengths[upto - 1] == len {
            1nat
        } else {
            0nat
        })
    }
}

/// The number of symbols whose code has length `len`.
pub open spec fn codes_of_length(lengths: Seq<u8>, len: int) -> nat {
    count_of_length(lengths, len, lengths.len() as int)
}

/// The smallest code of length `len`: the codes of the length before it are
/// passed over, and a bit is appended.
pub open spec fn first_code(lengths: Seq<u8>, len: int) -> nat
    decreases len,
{
    if len <= 1 {
        0
    } else {
        2 * (first_code(lengths, len - 1) + codes_of_length(lengths, len - 1))
    }
}

/// The code of `symbol`: the first code of its length, plus the number of
/// smaller symbols of the same length.
pub open spec fn canonical_code(lengths: Seq<u8>, symbol: int) -> nat {
    first_code(lengths, lengths[symbol] as int) + count_of_length(
        lengths,
        lengths[symbol] as int,
        symbol,
    )
}

/// Whether `lengths` can be made into a table: the alphabet is not too
/// large, and no code is too long.
pub open spec fn valid_lengths(lengths: Seq<u8>) -> bool {
    &&& lengths.len() <= MAX_SYMBOLS
    &&& forall|s: int| 0 <= s < lengths.len() ==> #[trigger] lengths[s] <= MAX_BITS_IN_CODE
}

/// The first symbol at or after `from` that has the code `code` of length
/// `len`.
pub open spec fn find_code(lengths: Seq<u8>, len: int, code: nat, from: int) -> Option<int>
    decreases lengths.len() - from,
{
    if from < 0 || from >= lengths.len() {
        None
    } else if lengths[from] == len && canonical_code(lengths, from) == code {
        Some(from)
    } else {
        find_code(lengths, len, code, from + 1)
    }
}

/// Decodes the symbol at `pos`, trying the lengths from `len` up: only
/// lengths that the table holds are tried.
pub open spec fn probe(bits: Seq<bool>, pos: int, lengths: Seq<u8>, len: int) -> Result<
    (int, int),
    DecodeError,
>
    decreases 16 - len,
{
    if len < 1 || len > MAX_BITS_IN_CODE {
        Err(DecodeError::NoMatchingCode)
    } else if codes_of_length(lengths, len) == 0 {
        probe(bits, pos, lengths, len + 1)
    } else if pos + len > bits.len() {
        Err(DecodeError::UnexpectedEnd)
    } else {
        match find_code(lengths, len, value_forward(bits.subrange(pos, pos + len)), 0) {
            Some(symbol) => Ok((symbol, pos + len)),
            None => probe(bits, pos, lengths, len + 1),
        }
    }
}

/// Decodes the symbol whose code starts at bit `pos` of `bits`: the symbol
/// and the position behind its code. Fails with `NoMatchingCode` when the bits
/// are no code of any length, and with `UnexpectedEnd` when the stream ends
/// before a length of the table could be tried.
pub open spec fn decode_symbol(bits: Seq<bool>, pos: int, lengths: Seq<u8>) -> Result<
    (int, int),
    DecodeError,
> {
    probe(bits, pos, lengths, 1)
}

/// A decoded symbol lies in the alphabet, and its code is at least one bit
/// and at most fifteen bits long and lies within the stream.
pub proof fn lemma_probe_bounds(bits: Seq<bool>, pos: int, lengths: Seq<u8>, len: int)
    requires
        1 <= len,
    ensures
        probe(bits, pos, lengths, len) matches Ok((symbol, next)) ==> 0 <= symbol < lengths.len()
            && pos + len <= next <= pos + MAX_BITS_IN_CODE && next <= bits.len(),
    decreases 16 - len,
{
    if len > MAX_BITS_IN_CODE {
    } else if codes_of_length(lengths, len) == 0 {
        lemma_probe_bounds(bits, pos, lengths, len + 1);
    } else if pos + len > bits.len() {
    } else {
        let code = value_forward(bits.subrange(pos, pos + len));
        lemma_find_code_bounds(lengths, len, code, 0);
        lemma_probe_bounds(bits, pos, lengths, len + 1);
    }
}

/// A symbol that was found lies in the alphabet, at or after the start of the
/// search.
pub proof fn lemma_find_code_bounds(lengths: Seq<u8>, len: int, code: nat, from: int)
    ensures
        find_code(lengths, len, code, from) matches Some(symbol) ==> from <= symbol
            < lengths.len() && lengths[symbol] == len && canonical_code(lengths, symbol) == code,
    decreases lengths.len() - from,
{
    if from < 0 || from >= lengths.len() {
    } else if lengths[from] == len && canonical_code(lengths, from) == code {
    } else {
        lemma_find_code_bounds(lengths, len, code, from + 1);
    }
}

/// No more symbols have a given length than there are symbols, and counting
/// further never counts fewer.
proof fn lemma_count_bound(lengths: Seq<u8>, len: int, upto: int)
    requires
        0 <= upto,
    ensures
        count_of_length(lengths, len, upto) <= upto,
        forall|more: int|
            upto <= more ==> count_of_length(lengths, len, upto) <= #[trigger] count_of_length(
                lengths,
                len,
                more,
            ),
    decreases upto,
{
    if upto > 0 {
        lemma_count_bound(lengths, len, upto - 1);
    }
    assert forall|more: int| upto <= more implies count_of_length(lengths, len, upto)
        <= #[trigger] count_of_length(lengths, len, more) by {
        lemma_count_monotone(lengths, len, upto, more);
    }
}

/// Counting further never counts fewer.
proof fn lemma_count_monotone(lengths: Seq<u8>, len: int, upto: int, more: int)
    requires
        0 <= upto <= more,
    ensures
        count_of_length(lengths, len, upto) <= count_of_length(lengths, len, more),
    decreases more - upto,
{
    if upto < more {
        lemma_count_monotone(lengths, len, upto, more - 1);
    }
}

/// The first code of a length stays well below `2^32`.
proof fn lemma_first_code_bound(lengths: Seq<u8>, len: int)
    requires
        lengths.len() <= MAX_SYMBOLS,
        1 <= len <= MAX_BITS_IN_CODE,
    ensures
        first_code(lengths, len) + 2 * MAX_SYMBOLS <= MAX_SYMBOLS * pow2(len as nat),
        first_code(lengths, len) <= 288 * 32768,
    decreases len,
{
    lemma2_to64();
    if len > 1 {
        lemma_first_code_bound(lengths, len - 1);
        lemma_count_bound(lengths, len - 1, lengths.len() as int);
        lemma_pow2_unfold(len as nat);
    }
    if len < 15 {
        vstd::arithmetic::power2::lemma_pow2_strictly_increases(len as nat, 15);
    }
    assert(MAX_SYMBOLS * pow2(len as nat) <= 288 * 32768) by (nonlinear_arith)
        requires
            pow2(len as nat) <= 32768,
            MAX_SYMBOLS == 288,
    ;
}

/// The number of the first `upto` symbols whose code has at least one bit
/// and fewer than `len` bits.
spec fn codes_shorter(lengths: Seq<u8>, len: int, upto: int) -> nat
    decreases upto,
{
    if upto <= 0 {
        0
    } else {
        codes_shorter(lengths, len, upto - 1) + (if 1 <= lengths[upto - 1] < len {
            1nat
        } else {
            0nat
        })
    }
}

/// No more symbols have a short code than there are symbols, and the
/// symbols with codes below a length are those with codes below the length
/// before it and those with codes of that length.
proof fn lemma_codes_shorter(lengths: Seq<u8>, len: int, upto: int)
    requires
        1 <= len,
        0 <= upto,
    ensures
        codes_shorter(lengths, len, upto) <= upto,
        codes_shorter(lengths, len + 1, upto) == codes_shorter(lengths, len, upto)
            + count_of_length(lengths, len, upto),
        codes_shorter(lengths, 1, upto) == 0,
    decreases upto,
{
    if upto > 0 {
        lemma_codes_shorter(lengths, len, upto - 1);
    }
}

/// The longer the codes that are counted, the more symbols have them.
proof fn lemma_codes_shorter_grows(lengths: Seq<u8>, a: int, b: int, upto: int)
    requires
        1 <= a <= b,
        0 <= upto,
    ensures
        codes_shorter(lengths, a, upto) <= codes_shorter(lengths, b, upto),
    decreases b - a,
{
    if a < b {
        lemma_codes_shorter_grows(lengths, a, b - 1, upto);
        lemma_codes_shorter(lengths, b - 1, upto);
    }
}

/// A symbol with a code of some length is counted among the symbols of
/// that length up to any symbol behind it.
proof fn lemma_count_passes(lengths: Seq<u8>, len: int, symbol: int, upto: int)
    requires
        0 <= symbol < upto,
        lengths[symbol] == len,
    ensures
        count_of_length(lengths, len, symbol) < count_of_length(lengths, len, upto),
{
    lemma_count_monotone(lengths, len, symbol + 1, upto);
}

/// No symbol is found where none has the code.
pub proof fn lemma_find_code_none(lengths: Seq<u8>, len: int, code: nat, from: int)
    requires
        0 <= from,
        forall|s: int|
            from <= s < lengths.len() ==> !(#[trigger] lengths[s] == len && canonical_code(
                lengths,
                s,
            ) == code),
    ensures
        find_code(lengths, len, code, from) is None,
    decreases lengths.len() - from,
{
    if from < lengths.len() {
        assert(!(lengths[from] == len && canonical_code(lengths, from) == code));
        lemma_find_code_none(lengths, len, code, from + 1);
    }
}

/// The first symbol that has the code is found.
pub proof fn lemma_find_code_first(lengths: Seq<u8>, len: int, code: nat, from: int, symbol: int)
    requires
        0 <= from <= symbol < lengths.len(),
        lengths[symbol] == len,
        canonical_code(lengths, symbol) == code,
        forall|s: int|
            from <= s < symbol ==> !(#[trigger] lengths[s] == len && canonical_code(lengths, s)
                == code),
    ensures
        find_code(lengths, len, code, from) == Some(symbol),
    decreases symbol - from,
{
    if from < symbol {
        assert(!(lengths[from] == len && canonical_code(lengths, from) == code));
        lemma_find_code_first(lengths, len, code, from + 1, symbol);
    }
}

/// The symbol that stands at place `k` among the symbols of length `len`.
spec fn entry(symbols: Seq<u16>, starts: Seq<u16>, len: int, k: int) -> u16 {
    symbols[starts[len] + k]
}

/// Whether the symbols of length `len` below `upto` stand in `symbols` in
/// ascending order, from the place where the symbols of that length start.
spec fn ordered(
    lengths: Seq<u8>,
    symbols: Seq<u16>,
    starts: Seq<u16>,
    len: int,
    upto: int,
) -> bool {
    forall|k: int|
        0 <= k < count_of_length(lengths, len, upto) ==> {
            let symbol = #[trigger] entry(symbols, starts, len, k);
            &&& symbol < upto
            &&& lengths[symbol as int] == len
            &&& count_of_length(lengths, len, symbol as int) == k
        }
}

/// A table of canonical codes. Its view is the code length of each symbol,
/// zero for a symbol that has no code.
///
/// The table holds, for each length, the number of codes, the first code,
/// and the symbols in the order of their codes, so that a code is found by
/// its distance from the first code of its length.
pub struct CodeTable {
    lengths: Vec<u8>,
    counts: Vec<u16>,
    first: Vec<u32>,
    starts: Vec<u16>,
    symbols: Vec<u16>,
}

impl View for CodeTable {
    type V = Seq<u8>;

    closed spec fn view(&self) -> Seq<u8> {
        self.lengths@
    }
}

impl CodeTable {
    #[verifier::type_invariant]
    spec fn table_inv(self) -> bool {
        &&& valid_lengths(self.lengths@)
        &&& self.counts.len() == MAX_BITS_IN_CODE + 1
        &&& self.first.len() == MAX_BITS_IN_CODE + 1
        &&& self.starts.len() == MAX_BITS_IN_CODE + 1
        &&& forall|len: int|
            1 <= len <= MAX_BITS_IN_CODE ==> {
                &&& #[trigger] self.counts[len] == codes_of_length(self.lengths@, len)
                &&& self.first[len] == first_code(self.lengths@, len)
                &&& self.starts[len] + self.counts[len] <= self.symbols.len()
                &&& ordered(
                    self.lengths@,
                    self.symbols@,
                    self.starts@,
                    len,
                    self.lengths.len() as int,
                )
            }
    }

    /// The table of the canonical code with the given code lengths, or
    /// nothing when there are more than 288 lengths or one is over 15.
    ///
    /// The codes of each length are counted, the first code of each length
    /// follows from the counts, and the symbols of each length get the codes
    /// from the first on, in ascending order.
    pub fn from_lengths(lengths: Vec<u8>) -> (res: Option<CodeTable>)
        ensures
            res is Some <==> valid_lengths(lengths@),
            res matches Some(table) ==> table@ == lengths@,
    {
        let n: usize = lengths.len();
        if n > MAX_SYMBOLS {
            return None;
        }
        // The number of codes of each length.

        let mut counts: Vec<u16> = Vec::new();
        let mut len: usize = 0;
        while len <= MAX_BITS_IN_CODE
            invariant
                len <= MAX_BITS_IN_CODE + 1,
                counts.len() == len,
                forall|k: int| 0 <= k < len ==> #[trigger] counts[k] == 0,
            decreases MAX_BITS_IN_CODE + 1 - len,
        {
            counts.push(0);
            len += 1;
        }
        let mut s: usize = 0;
        while s < n
            invariant
                s <= n,
                n == lengths.len(),
                n <= MAX_SYMBOLS,
                counts.len() == MAX_BITS_IN_CODE + 1,
                forall|k: int| 0 <= k < s ==> #[trigger] lengths[k] <= MAX_BITS_IN_CODE,
                forall|k: int|
                    0 <= k <= MAX_BITS_IN_CODE ==> #[trigger] counts[k] == count_of_length(
                        lengths@,
                        k,
                        s as int,
                    ),
            decreases n - s,
        {
            let l: usize = lengths[s] as usize;
            if l > MAX_BITS_IN_CODE {
                return None;
            }
            proof {
                lemma_count_bound(lengths@, l as int, s as int);
            }
            counts.set(l, counts[l] + 1);
            s += 1;
        }
        // The smallest code of each length, and the place of its symbol.
        let mut first: Vec<u32> = Vec::new();
        first.push(0);
        first.push(0);
        let mut starts: Vec<u16> = Vec::new();
        starts.push(0);
        starts.push(0);
        let mut code: u32 = 0;
        let mut start: u16 = 0;
        len = 2;
        proof {
            lemma_codes_shorter(lengths@, 1, n as int);
        }
        while len <= MAX_BITS_IN_CODE
            invariant
                2 <= len <= MAX_BITS_IN_CODE + 1,
                n == lengths.len(),
                n <= MAX_SYMBOLS,
                counts.len() == MAX_BITS_IN_CODE + 1,
                first.len() == len,
                starts.len() == len,
                code == first_code(lengths@, len - 1),
                start == codes_shorter(lengths@, len - 1, n as int),
                forall|k: int|
                    0 <= k <= MAX_BITS_IN_CODE ==> #[trigger] counts[k] == codes_of_length(
                        lengths@,
                        k,
                    ),
                forall|k: int| 1 <= k < len ==> #[trigger] first[k] == first_code(lengths@, k),
                forall|k: int|
                    1 <= k < len ==> #[trigger] starts[k] == codes_shorter(lengths@, k, n as int),
            decreases MAX_BITS_IN_CODE + 1 - len,
        {
            proof {
                lemma_first_code_bound(lengths@, len - 1);
                lemma_first_code_bound(lengths@, len as int);
                lemma_count_bound(lengths@, len - 1, n as int);
                lemma_codes_shorter(lengths@, len - 1, n as int);
                lemma_codes_shorter(lengths@, len as int, n as int);
            }
            code = 2 * (code + counts[len - 1] as u32);
            start = start + counts[len - 1];
            first.push(code);
            starts.push(start);
            len += 1;
        }
        proof {
            lemma_codes_shorter(lengths@, MAX_BITS_IN_CODE as int, n as int);
            lemma_codes_shorter(lengths@, MAX_BITS_IN_CODE + 1, n as int);
        }
        let total: usize = (start + counts[MAX_BITS_IN_CODE]) as usize;
        // The symbols of each length, in ascending order.
        let mut symbols: Vec<u16> = Vec::new();
        s = 0;
        while s < total
            invariant
                s <= total,
                symbols.len() == s,
            decreases total - s,
        {
            symbols.push(0);
            s += 1;
        }
        let mut places: Vec<u16> = Vec::new();
        len = 0;
        while len <= MAX_BITS_IN_CODE
            invariant
                len <= MAX_BITS_IN_CODE + 1,
                starts.len() == MAX_BITS_IN_CODE + 1,
                places.len() == len,
                forall|k: int| 0 <= k < len ==> #[trigger] places[k] == starts[k],
            decreases MAX_BITS_IN_CODE + 1 - len,
        {
            places.push(starts[len]);
            len += 1;
        }
        s = 0;
        while s < n
            invariant
                s <= n,
                n == lengths.len(),
                n <= MAX_SYMBOLS,
                valid_lengths(lengths@),
                symbols.len() == total,
                total == codes_shorter(lengths@, MAX_BITS_IN_CODE + 1, n as int),
                starts.len() == MAX_BITS_IN_CODE + 1,
                places.len() == MAX_BITS_IN_CODE + 1,
                forall|k: int|
                    1 <= k <= MAX_BITS_IN_CODE ==> #[trigger] starts[k] == codes_shorter(
                        lengths@,
                        k,
                        n as int,
                    ),
                forall|k: int|
                    1 <= k <= MAX_BITS_IN_CODE ==> #[trigger] places[k] == starts[k]
                        + count_of_length(lengths@, k, s as int),
                forall|k: int|
                    1 <= k <= MAX_BITS_IN_CODE ==> #[trigger] ordered(
                        lengths@,
                        symbols@,
                        starts@,
                        k,
                        s as int,
                    ),
            decreases n - s,
        {
            let l: usize = lengths[s] as usize;
            if l != 0 {
                let ghost before = symbols@;
                let place: usize = places[l] as usize;
                proof {
                    lemma_count_passes(lengths@, l as int, s as int, n as int);
                    lemma_count_bound(lengths@, l as int, n as int);
                    lemma_codes_shorter(lengths@, l as int, n as int);
                    lemma_codes_shorter_grows(lengths@, l + 1, MAX_BITS_IN_CODE + 1, n as int);
                }
                symbols.set(place, s as u16);
                places.set(l, places[l] + 1);
                proof {
                    assert forall|k: int| 1 <= k <= MAX_BITS_IN_CODE implies #[trigger] ordered(
                        lengths@,
                        symbols@,
                        starts@,
                        k,
                        s + 1,
                    ) by {
                        assert(ordered(lengths@, before, starts@, k, s as int));
                        assert forall|j: int|
                            0 <= j < count_of_length(lengths@, k, s + 1) implies {
                            let symbol = #[trigger] entry(symbols@, starts@, k, j);
                            &&& symbol < s + 1
                            &&& lengths@[symbol as int] == k
                            &&& count_of_length(lengths@, k, symbol as int) == j
                        } by {
                            if k == l && j == count_of_length(lengths@, k, s as int) {
                                assert(entry(symbols@, starts@, k, j) == s);
                            } else {
                                // The place of another symbol: it lies
                                // elsewhere and holds what it held.
                                lemma_count_monotone(lengths@, k, s as int, n as int);
                                lemma_count_monotone(lengths@, k, s + 1, n as int);
                                lemma_codes_shorter(lengths@, k, n as int);
                                lemma_codes_shorter_grows(
                                    lengths@,
                                    k + 1,
                                    MAX_BITS_IN_CODE + 1,
                                    n as int,
                                );
                                if k < l {
                                    lemma_codes_shorter_grows(lengths@, k + 1, l as int, n as int);
                                } else if k > l {
                                    lemma_codes_shorter_grows(lengths@, l + 1, k, n as int);
                                }
                                assert(starts@[k] + j != place);
                                assert(entry(symbols@, starts@, k, j) == entry(
                                    before,
                                    starts@,
                                    k,
                                    j,
                                ));
                            }
                        }
                    }
                }
            } else {
                proof {
                    assert forall|k: int| 1 <= k <= MAX_BITS_IN_CODE implies #[trigger] ordered(
                        lengths@,
                        symbols@,
                        starts@,
                        k,
                        s + 1,
                    ) by {
                        assert(ordered(lengths@, symbols@, starts@, k, s as int));
                    }
                }
            }
            s += 1;
        }
        proof {
            assert forall|k: int| 1 <= k <= MAX_BITS_IN_CODE implies starts[k] + counts[k]
                <= symbols.len() by {
                lemma_codes_shorter(lengths@, k, n as int);
                lemma_codes_shorter_grows(lengths@, k + 1, MAX_BITS_IN_CODE + 1, n as int);
            }
        }
        Some(CodeTable { lengths, counts, first, starts, symbols })
    }

    /// The symbol that has the code `code` of length `len`: the code's
    /// distance from the first code of its length is the place of its symbol
    /// among the symbols of that length.
    fn find(&self, len: usize, code: u32) -> (res: Option<u16>)
        requires
            1 <= len <= MAX_BITS_IN_CODE,
        ensures
            match res {
                Some(symbol) => find_code(self@, len as int, code as nat, 0) == Some(symbol as int),
                None => find_code(self@, len as int, code as nat, 0) is None,
            },
    {
        proof {
            use_type_invariant(self);
        }
        let ghost lengths = self.lengths@;
        let ghost n = lengths.len() as int;
        assert(self.counts[len as int] == codes_of_length(lengths, len as int));
        assert(ordered(lengths, self.symbols@, self.starts@, len as int, n));
        if code >= self.first[len] && code - self.first[len] < self.counts[len] as u32 {
            let k: usize = (code - self.first[len]) as usize;
            let symbol: u16 = self.symbols[self.starts[len] as usize + k];
            proof {
                assert(symbol == entry(self.symbols@, self.starts@, len as int, k as int));
                assert forall|s: int| 0 <= s < symbol implies !(#[trigger] lengths[s] == len
                    && canonical_code(lengths, s) == code as nat) by {
                    if lengths[s] == len {
                        lemma_count_passes(lengths, len as int, s, symbol as int);
                    }
                }
                lemma_find_code_first(lengths, len as int, code as nat, 0, symbol as int);
            }
            Some(symbol)
        } else {
            proof {
                assert forall|s: int| 0 <= s < n implies !(#[trigger] lengths[s] == len
                    && canonical_code(lengths, s) == code as nat) by {
                    if lengths[s] == len {
                        lemma_count_passes(lengths, len as int, s, n);
                    }
                }
                lemma_find_code_none(lengths, len as int, code as nat, 0);
            }
            None
        }
    }

    /// Decodes the symbol whose code starts at the cursor, and moves the
    /// cursor past the code. On failure the cursor stays where it is.
    pub fn decode(&self, bits: &mut Bits) -> (res: Result<u16, DecodeError>)
        ensures
            final(bits).bytes() == old(bits).bytes(),
            match res {
                Ok(symbol) => decode_symbol(
                    old(bits).stream(),
                    old(bits).position() as int,
                    self@,
                ) == Ok::<(int, int), DecodeError>((symbol as int, final(bits).position() as int)),
                Err(e) => decode_symbol(old(bits).stream(), old(bits).position() as int, self@)
                    == Err::<(int, int), DecodeError>(e) && *final(bits) == *old(bits),
            },
    {
        proof {
            use_type_invariant(self);
            bits.lemma_cursor_in_stream();
        }
        let mut len: usize = 1;
        while len <= MAX_BITS_IN_CODE
            invariant
                1 <= len <= MAX_BITS_IN_CODE + 1,
                *bits == *old(bits),
                self.counts.len() == MAX_BITS_IN_CODE + 1,
                forall|k: int|
                    1 <= k <= MAX_BITS_IN_CODE ==> #[trigger] self.counts[k] == codes_of_length(
                        self@,
                        k,
                    ),
                decode_symbol(old(bits).stream(), old(bits).position() as int, self@) == probe(
                    old(bits).stream(),
                    old(bits).position() as int,
                    self@,
                    len as int,
                ),
            decreases MAX_BITS_IN_CODE + 1 - len,
        {
            if self.counts[len] != 0 {
                match bits.peek_next_data_as_u32(len) {
                    Err(_) => {
                        return Err(DecodeError::UnexpectedEnd);
                    },
                    Ok(code) => {
                        proof {
                            bits.lemma_cursor_in_stream();
                        }
                        match self.find(len, code) {
                            Some(symbol) => {
                                let moved = bits.move_n_bits(len);
                                return Ok(symbol);
                            },
                            None => {},
                        }
                    },
                }
            }
            len += 1;
        }
        Err(DecodeError::NoMatchingCode)
    }
}

} // verus!
