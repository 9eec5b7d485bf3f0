//! LZ77: a text as a sequence of tokens, each a reference to a run of bytes
//! that came before, followed by one literal byte.
//!
//! At each position the coder looks for the longest run that the bytes ahead
//! have in common with a run of the dictionary, the bytes just behind the
//! position. A token and its literal never cover more bytes than the window
//! is wide, so a run is at most one byte shorter than the window. Of two runs
//! of the same length the one nearest to the position is taken.

use crate::backref::{copy_back, copy_back_into, lemma_copy_back_rebuilds};
use crate::error::DecodeError;
use crate::text::string_from_utf8;
use std::slice::Iter;
use vstd::prelude::*;
use vstd::slice::{slice_subrange, slice_to_vec};
use vstd::std_specs::slice::into_iter_elts;
use vstd::utf8::{decode_utf8, encode_utf8, valid_utf8};

verus! {

/// The widest window and the largest dictionary.
pub const MAX_SIZE: usize = 255;

/// A candidate for a reference: where the run starts in the text, and the
/// bytes of the run.
#[derive(Debug)]
pub struct LZ77Match {
    index: usize,
    match_data: Vec<u8>,
}

impl LZ77Match {
    /// The position in the text at which the run starts.
    pub closed spec fn start(self) -> int {
        self.index as int
    }

    /// The bytes of the run.
    pub closed spec fn run(self) -> Seq<u8> {
        self.match_data@
    }

    /// A candidate that starts at `index` and holds the bytes `match_data`.
    pub fn new(match_data: Vec<u8>, index: usize) -> (res: LZ77Match)
        ensures
            res.start() == index,
            res.run() == match_data@,
    {
        LZ77Match { index, match_data }
    }

    /// The candidate for "no run": it starts at zero and is empty.
    pub fn none() -> (res: LZ77Match)
        ensures
            res.start() == 0,
            res.run().len() == 0,
    {
        LZ77Match { index: 0, match_data: Vec::new() }
    }

    /// The length of the run.
    pub fn len(&self) -> (res: usize)
        ensures
            res == self.run().len(),
    {
        self.match_data.len()
    }

    /// The position in the text at which the run starts.
    pub fn index(&self) -> (res: usize)
        ensures
            res == self.start(),
    {
        self.index
    }

    /// Whether this candidate wins over `other`: candidates are ordered by
    /// the length of their runs alone.
    pub fn longer_than(&self, other: &LZ77Match) -> (res: bool)
        ensures
            res == (self.run().len() > other.run().len()),
    {
        self.match_data.len() > other.match_data.len()
    }
}

/// What follows a reference: a literal byte, or the end of the text.
#[derive(Debug, Clone, Copy, PartialEq, Eq, Structural)]
pub enum LZ77NodeMatch {
    /// The byte that follows the run.
    NextMatch(u8),
    /// The run reaches the end of the text.
    EndOfData,
}

/// A token: a reference `offset` bytes back of `length` bytes, and what
/// follows it. A token without a reference has offset and length zero.
#[derive(Debug, Clone, Copy, PartialEq, Eq, Structural)]
pub struct LZ77Node {
    pub offset: usize,
    pub length: usize,
    pub next_match: LZ77NodeMatch,
}

/// The bytes that a token is written with: offset, length and offset again,
/// each cut to its lowest eight bits, and the literal if there is one.
pub open spec fn node_bytes(node: LZ77Node) -> Seq<u8> {
    let head = seq![
        (node.offset % 256) as u8,
        (node.length % 256) as u8,
        (node.offset % 256) as u8,
    ];
    match node.next_match {
        LZ77NodeMatch::NextMatch(byte) => head.push(byte),
        LZ77NodeMatch::EndOfData => head,
    }
}

impl LZ77Node {
    /// The token with the given parts.
    pub fn new(offset: usize, length: usize, next_match: LZ77NodeMatch) -> (res: LZ77Node)
        ensures
            res == (LZ77Node { offset, length, next_match }),
    {
        LZ77Node { offset, length, next_match }
    }

    /// The bytes that this token is written with.
    pub fn to_vec_u8(&self) -> (res: Vec<u8>)
        ensures
            res@ == node_bytes(*self),
    {
        let mut res: Vec<u8> = Vec::new();
        res.push((self.offset % 256) as u8);
        res.push((self.length % 256) as u8);
        res.push((self.offset % 256) as u8);
        if let LZ77NodeMatch::NextMatch(data) = self.next_match {
            res.push(data);
        }
        assert(res@ =~= node_bytes(*self));
        res
    }
}

/// The number of bytes that `source` from `index` on and `target` have in
/// common, counted from `k` on, the first `k` being known to agree.
pub open spec fn run_length(source: Seq<u8>, index: int, target: Seq<u8>, k: int) -> int
    decreases target.len() - k,
{
    if 0 <= k < target.len() && 0 <= index + k < source.len() && source[index + k] == target[k] {
        run_length(source, index, target, k + 1)
    } else {
        k
    }
}

/// The places of `source` from `from` on at which `target` starts to match,
/// the last place first: each with the number of bytes that match there.
pub open spec fn hits_from(source: Seq<u8>, target: Seq<u8>, from: int) -> Seq<(usize, usize)>
    decreases source.len() - from,
{
    if from < 0 || from >= source.len() {
        Seq::empty()
    } else if source[from] == target[0] {
        hits_from(source, target, from + 1).push(
            (from as usize, run_length(source, from, target, 0) as usize),
        )
    } else {
        hits_from(source, target, from + 1)
    }
}

/// The places of `source` at which `target` starts to match, the last place
/// first, each with the number of bytes that match there; none when `target`
/// is empty or longer than `source`.
pub open spec fn subvec_hits(source: Seq<u8>, target: Seq<u8>) -> Seq<(usize, usize)> {
    if target.len() == 0 || target.len() > source.len() {
        Seq::empty()
    } else {
        hits_from(source, target, 0)
    }
}

/// A run is made of matching bytes, lies within both texts, and ends where
/// the texts differ or one of them ends.
pub proof fn lemma_run_length(source: Seq<u8>, index: int, target: Seq<u8>, k: int)
    requires
        0 <= k <= target.len(),
        0 <= index,
        index + k <= source.len(),
        forall|j: int| 0 <= j < k ==> source[index + j] == #[trigger] target[j],
    ensures
        ({
            let run = run_length(source, index, target, k);
            &&& k <= run <= target.len()
            &&& index + run <= source.len()
            &&& forall|j: int| 0 <= j < run ==> source[index + j] == #[trigger] target[j]
            &&& run == target.len() || index + run == source.len() || source[index + run]
                != target[run]
        }),
    decreases target.len() - k,
{
    if 0 <= k < target.len() && 0 <= index + k < source.len() && source[index + k] == target[k] {
        lemma_run_length(source, index, target, k + 1);
    }
}

/// The places at which `target` starts to match in `source`, with the
/// number of bytes that match at each. The places come last first. A place
/// is listed when its first byte matches, whether or not all of `target`
/// matches there.
pub fn find_subvec_in_vec(source: &[u8], target: &[u8]) -> (res: Vec<(usize, usize)>)
    ensures
        res@ == subvec_hits(source@, target@),
{
    let mut res: Vec<(usize, usize)> = Vec::new();
    if target.len() == 0 || target.len() > source.len() {
        return res;
    }
    let mut index: usize = source.len();
    while index > 0
        invariant
            index <= source.len(),
            0 < target.len() <= source.len(),
            res@ == hits_from(source@, target@, index as int),
        decreases index,
    {
        index -= 1;
        if source[index] == target[0] {
            let mut size: usize = 0;
            while size < target.len() && index + size < source.len() && target[size]
                == source[index + size]
                invariant
                    index < source.len(),
                    size <= target.len() <= source.len(),
                    index + size <= source.len(),
                    run_length(source@, index as int, target@, 0) == run_length(
                        source@,
                        index as int,
                        target@,
                        size as int,
                    ),
                decreases target.len() - size,
            {
                size += 1;
            }
            res.push((index, size));
        }
    }
    res
}

/// The first position of the dictionary for the position `pos`.
pub open spec fn dictionary_start(pos: int, dictionary_size: int) -> int {
    if pos > dictionary_size {
        pos - dictionary_size
    } else {
        0
    }
}

/// The position behind the last byte that a run from `pos` may cover: a
/// run is at most one byte shorter than the window, and ends with the text.
pub open spec fn lookahead_end(pos: int, window_size: int, len: int) -> int {
    if pos + window_size - 1 < len {
        pos + window_size - 1
    } else {
        len
    }
}

/// The best place of `source`, from `from` on, to match `window`: the
/// place and the number of bytes that match there. A place wins over the
/// places behind it only with a longer run, so of the longest runs the last
/// is taken. Without any match the result is `(0, 0)`.
pub open spec fn best_match_from(source: Seq<u8>, window: Seq<u8>, from: int) -> (int, int)
    decreases source.len() - from,
{
    if from < 0 || from >= source.len() {
        (0, 0)
    } else {
        let rest = best_match_from(source, window, from + 1);
        let here = run_length(source, from, window, 0);
        if here > rest.1 {
            (from, here)
        } else {
            rest
        }
    }
}

/// The longest run that the text ahead of `pos` has in common with the
/// dictionary behind `pos`: where it starts in the text, and its length; or
/// `(0, 0)` when there is none.
pub open spec fn longest_match(data: Seq<u8>, pos: int, window_size: int, dictionary_size: int) -> (
    int,
    int,
) {
    let start = dictionary_start(pos, dictionary_size);
    let best = best_match_from(
        data.subrange(start, pos),
        data.subrange(pos, lookahead_end(pos, window_size, data.len() as int)),
        0,
    );
    if best.1 <= 0 {
        (0, 0)
    } else {
        (start + best.0, best.1)
    }
}

/// The token for the position `pos` of `data`.
pub open spec fn token_at(data: Seq<u8>, pos: int, window_size: int, dictionary_size: int) -> LZ77Node {
    let found = longest_match(data, pos, window_size, dictionary_size);
    LZ77Node {
        offset: (if found.1 == 0 {
            0
        } else {
            pos - found.0
        }) as usize,
        length: found.1 as usize,
        next_match: if pos + found.1 < data.len() {
            LZ77NodeMatch::NextMatch(data[pos + found.1])
        } else {
            LZ77NodeMatch::EndOfData
        },
    }
}

/// The tokens for `data` from the position `pos` on. Each token covers its
/// run and its literal; a token whose run reaches the end of the text is the
/// last.
pub open spec fn tokens_from(data: Seq<u8>, pos: int, window_size: int, dictionary_size: int) -> Seq<
    LZ77Node,
>
    decreases data.len() - pos,
{
    if pos < 0 || pos >= data.len() {
        Seq::empty()
    } else {
        let found = longest_match(data, pos, window_size, dictionary_size);
        let token = token_at(data, pos, window_size, dictionary_size);
        if pos + found.1 < data.len() {
            seq![token] + tokens_from(data, pos + found.1 + 1, window_size, dictionary_size)
        } else {
            seq![token]
        }
    }
}

/// The position at which coding `data` from `pos` on stops: behind the
/// literal of the last token, or, where the last run reaches the end of the
/// text, at the start of that run.
pub open spec fn position_after(
    data: Seq<u8>,
    pos: int,
    window_size: int,
    dictionary_size: int,
) -> int
    decreases data.len() - pos,
{
    if pos < 0 || pos >= data.len() {
        pos
    } else {
        let found = longest_match(data, pos, window_size, dictionary_size);
        if pos + found.1 < data.len() {
            position_after(data, pos + found.1 + 1, window_size, dictionary_size)
        } else {
            pos
        }
    }
}

/// The text that `tokens` stand for, appended to `out`. A reference that
/// has offset zero or that points before the start of the output is
/// refused.
pub open spec fn decode_from(tokens: Seq<LZ77Node>, out: Seq<u8>) -> Result<Seq<u8>, DecodeError>
    decreases tokens.len(),
{
    if tokens.len() == 0 {
        Ok(out)
    } else {
        let token = tokens[0];
        if token.length > 0 && (token.offset == 0 || token.offset > out.len()) {
            Err(DecodeError::BadReference)
        } else {
            let copied = copy_back(out, token.offset as int, token.length as nat);
            match token.next_match {
                LZ77NodeMatch::NextMatch(byte) => decode_from(
                    tokens.drop_first(),
                    copied.push(byte),
                ),
                LZ77NodeMatch::EndOfData => Ok(copied),
            }
        }
    }
}

/// The text that `tokens` stand for.
pub open spec fn lz77_decode(tokens: Seq<LZ77Node>) -> Result<Seq<u8>, DecodeError> {
    decode_from(tokens, Seq::<u8>::empty())
}

/// The text that `tokens` stand for: the bytes that they stand for, read
/// as UTF-8.
pub open spec fn lz77_decode_text(tokens: Seq<LZ77Node>) -> Result<Seq<char>, DecodeError> {
    match lz77_decode(tokens) {
        Err(e) => Err(e),
        Ok(bytes) => if valid_utf8(bytes) {
            Ok(decode_utf8(bytes))
        } else {
            Err(DecodeError::BadText)
        },
    }
}

/// A run read from `k` on is at least `k` long.
proof fn lemma_run_length_grows(source: Seq<u8>, index: int, target: Seq<u8>, k: int)
    ensures
        run_length(source, index, target, k) >= k,
    decreases target.len() - k,
{
    if 0 <= k < target.len() && 0 <= index + k < source.len() && source[index + k] == target[k] {
        lemma_run_length_grows(source, index, target, k + 1);
    }
}

/// Against the first `l` bytes of the window a place matches as many bytes
/// as against the whole window, but no more than `l`.
proof fn lemma_run_length_truncated(source: Seq<u8>, index: int, window: Seq<u8>, l: int, k: int)
    requires
        0 <= k <= l <= window.len(),
    ensures
        run_length(source, index, window.take(l), k) == (if run_length(source, index, window, k)
            <= l {
            run_length(source, index, window, k)
        } else {
            l
        }),
    decreases l - k,
{
    let target = window.take(l);
    if k < l && 0 <= index + k < source.len() && source[index + k] == window[k] {
        lemma_run_length_truncated(source, index, window, l, k + 1);
    } else {
        lemma_run_length_grows(source, index, window, k);
    }
}

/// What makes the best match the best: no place matches more bytes, and
/// the places behind it match fewer.
pub open spec fn is_best_match(source: Seq<u8>, window: Seq<u8>, from: int, best: (int, int)) -> bool {
    &&& 0 <= best.1
    &&& forall|idx: int|
        from <= idx < source.len() ==> #[trigger] run_length(source, idx, window, 0) <= best.1
    &&& best.1 == 0 ==> best.0 == 0
    &&& best.1 > 0 ==> {
        &&& from <= best.0 < source.len()
        &&& run_length(source, best.0, window, 0) == best.1
        &&& forall|idx: int|
            best.0 < idx < source.len() ==> #[trigger] run_length(source, idx, window, 0) < best.1
    }
}

/// The best match is the best.
pub proof fn lemma_best_match_from(source: Seq<u8>, window: Seq<u8>, from: int)
    requires
        0 <= from <= source.len(),
    ensures
        is_best_match(source, window, from, best_match_from(source, window, from)),
    decreases source.len() - from,
{
    if from < source.len() {
        lemma_best_match_from(source, window, from + 1);
        lemma_run_length_grows(source, from, window, 0);
    }
}

/// There is only one best match.
pub proof fn lemma_best_match_unique(source: Seq<u8>, window: Seq<u8>, best: (int, int))
    requires
        is_best_match(source, window, 0, best),
    ensures
        best == best_match_from(source, window, 0),
{
    lemma_best_match_from(source, window, 0);
    let other = best_match_from(source, window, 0);
    if best.1 > 0 {
        assert(run_length(source, best.0, window, 0) <= other.1);
    }
    if other.1 > 0 {
        assert(run_length(source, other.0, window, 0) <= best.1);
    }
    if best.1 > 0 && best.0 != other.0 {
        if best.0 < other.0 {
            assert(run_length(source, other.0, window, 0) < best.1);
        } else {
            assert(run_length(source, best.0, window, 0) < other.1);
        }
    }
}

/// The longest match lies in the dictionary, is no longer than the text
/// ahead and shorter than the window, and repeats the text ahead.
pub proof fn lemma_longest_match(data: Seq<u8>, pos: int, window_size: int, dictionary_size: int)
    requires
        0 <= pos < data.len(),
        1 <= window_size,
        1 <= dictionary_size,
    ensures
        ({
            let found = longest_match(data, pos, window_size, dictionary_size);
            &&& 0 <= found.1
            &&& pos + found.1 <= data.len()
            &&& found.1 == 0 ==> found.0 == 0
            &&& found.1 > 0 ==> {
                &&& found.1 < window_size
                &&& 0 <= found.0
                &&& dictionary_start(pos, dictionary_size) <= found.0
                &&& found.0 + found.1 <= pos
                &&& forall|k: int|
                    0 <= k < found.1 ==> #[trigger] data[pos + k] == data[found.0 + k]
            }
        }),
{
    let start = dictionary_start(pos, dictionary_size);
    let end = lookahead_end(pos, window_size, data.len() as int);
    let source = data.subrange(start, pos);
    let window = data.subrange(pos, end);
    let best = best_match_from(source, window, 0);
    lemma_best_match_from(source, window, 0);
    if best.1 > 0 {
        lemma_run_length(source, best.0, window, 0);
        assert forall|k: int| 0 <= k < best.1 implies #[trigger] data[pos + k] == data[start
            + best.0 + k] by {
            assert(source[best.0 + k] == window[k]);
        }
    }
}

/// Whether the first byte of `target` stands at `idx` in `source`.
spec fn starts_at(source: Seq<u8>, target: Seq<u8>, idx: int) -> bool {
    source[idx] == target[0]
}

/// The place that bounds the gap above the hit `p`: the hit before it, or
/// the end of the text for the first hit.
spec fn gap_top(hits: Seq<(usize, usize)>, p: int, len: int) -> int {
    if p <= 0 {
        len
    } else {
        hits[p - 1].0 as int
    }
}

/// Whether `hits` lists the places of `source` from `from` on at which
/// `target` starts to match: every hit is such a place and holds the number
/// of bytes that match there, the places descend, and no such place lies
/// between two hits, above the first or below the last.
#[verifier::opaque]
spec fn lists_hits(source: Seq<u8>, target: Seq<u8>, from: int, hits: Seq<(usize, usize)>) -> bool {
    &&& forall|p: int|
        0 <= p < hits.len() ==> {
            &&& from <= (#[trigger] hits[p]).0 < gap_top(hits, p, source.len() as int)
            &&& hits[p].0 < source.len()
            &&& source[hits[p].0 as int] == target[0]
            &&& hits[p].1 == run_length(source, hits[p].0 as int, target, 0)
        }
    &&& forall|p: int, idx: int|
        0 <= p < hits.len() && (#[trigger] hits[p]).0 < idx < gap_top(hits, p, source.len() as int)
            ==> !#[trigger] starts_at(source, target, idx)
    &&& forall|idx: int|
        from <= idx < gap_top(hits, hits.len() as int, source.len() as int) ==> !#[trigger] starts_at(
            source,
            target,
            idx,
        )
}

/// The hits from a place on are what `lists_hits` asks for.
proof fn lemma_hits_from(source: Seq<u8>, target: Seq<u8>, from: int)
    requires
        0 <= from <= source.len() <= usize::MAX,
        target.len() <= usize::MAX,
    ensures
        lists_hits(source, target, from, hits_from(source, target, from)),
    decreases source.len() - from,
{
    reveal(lists_hits);
    if from < source.len() {
        lemma_hits_from(source, target, from + 1);
        let rest = hits_from(source, target, from + 1);
        let hits = hits_from(source, target, from);
        if source[from] == target[0] {
            lemma_run_length_grows(source, from, target, 0);
            if target.len() > 0 {
                lemma_run_length(source, from, target, 0);
            }
            assert forall|p: int| 0 <= p < hits.len() implies {
                &&& from <= (#[trigger] hits[p]).0 < gap_top(hits, p, source.len() as int)
                &&& hits[p].0 < source.len()
                &&& source[hits[p].0 as int] == target[0]
                &&& hits[p].1 == run_length(source, hits[p].0 as int, target, 0)
            } by {
                if p < rest.len() {
                    assert(hits[p] == rest[p]);
                    assert(gap_top(hits, p, source.len() as int) == gap_top(
                        rest,
                        p,
                        source.len() as int,
                    ));
                } else {
                    assert(gap_top(hits, p, source.len() as int) == gap_top(
                        rest,
                        rest.len() as int,
                        source.len() as int,
                    ));
                    if rest.len() > 0 {
                        assert(from + 1 <= rest[rest.len() - 1].0);
                    }
                }
            }
            assert forall|p: int, idx: int|
                0 <= p < hits.len() && (#[trigger] hits[p]).0 < idx < gap_top(
                    hits,
                    p,
                    source.len() as int,
                ) implies !#[trigger] starts_at(source, target, idx) by {
                if p < rest.len() {
                    assert(hits[p] == rest[p]);
                    assert(gap_top(hits, p, source.len() as int) == gap_top(
                        rest,
                        p,
                        source.len() as int,
                    ));
                } else {
                    assert(gap_top(hits, p, source.len() as int) == gap_top(
                        rest,
                        rest.len() as int,
                        source.len() as int,
                    ));
                }
            }
        } else {
            assert forall|idx: int|
                from <= idx < gap_top(
                    hits,
                    hits.len() as int,
                    source.len() as int,
                ) implies !#[trigger] starts_at(source, target, idx) by {
                if idx > from {
                    assert(from + 1 <= idx);
                }
            }
        }
    }
}

/// Whether no place of `source` from `bound` on matches more than `best`
/// of the first `l` bytes of `window`.
#[verifier::opaque]
spec fn covered(source: Seq<u8>, window: Seq<u8>, l: int, bound: int, best: int) -> bool {
    forall|idx: int|
        bound <= idx < source.len() ==> #[trigger] run_length(source, idx, window, 0) <= best || l
            <= best
}

/// Whether `at` is the last place of `source` that matches at least `len`
/// bytes of `window`.
#[verifier::opaque]
spec fn nearest(source: Seq<u8>, window: Seq<u8>, at: int, len: int) -> bool {
    &&& 0 <= at < source.len()
    &&& run_length(source, at, window, 0) >= len
    &&& forall|idx: int|
        at < idx < source.len() ==> #[trigger] run_length(source, idx, window, 0) < len
}

/// What a hit of the list is: a place below the hit before it, at which
/// the target starts, with the number of bytes that match there; and the
/// target starts nowhere between the two.
proof fn lemma_hit(source: Seq<u8>, target: Seq<u8>, hits: Seq<(usize, usize)>, j: int)
    requires
        lists_hits(source, target, 0, hits),
        0 <= j < hits.len(),
    ensures
        0 <= hits[j].0 < gap_top(hits, j, source.len() as int) <= source.len(),
        gap_top(hits, j + 1, source.len() as int) == hits[j].0,
        starts_at(source, target, hits[j].0 as int),
        hits[j].1 == run_length(source, hits[j].0 as int, target, 0),
        forall|idx: int|
            hits[j].0 < idx < gap_top(hits, j, source.len() as int) ==> !#[trigger] starts_at(
                source,
                target,
                idx,
            ),
{
    reveal(lists_hits);
    if j > 0 {
        assert(hits[j - 1].0 < source.len());
    }
}

/// A place at which the window does not start matches no byte of it.
proof fn lemma_no_start(source: Seq<u8>, window: Seq<u8>, l: int, idx: int)
    requires
        1 <= l <= window.len(),
        !starts_at(source, window.take(l), idx),
    ensures
        run_length(source, idx, window, 0) == 0,
{
    assert(window.take(l)[0] == window[0]);
}

/// What considering one more hit does to the best match so far: the hit
/// wins when it matches more bytes, and either way the places down to the hit
/// are covered.
proof fn lemma_consider_hit(
    source: Seq<u8>,
    window: Seq<u8>,
    l: int,
    hits: Seq<(usize, usize)>,
    j: int,
    best_at: int,
    best: int,
)
    requires
        1 <= l <= window.len(),
        lists_hits(source, window.take(l), 0, hits),
        0 <= j < hits.len(),
        0 <= best <= l,
        covered(source, window, l - 1, 0, best),
        covered(source, window, l, gap_top(hits, j, source.len() as int), best),
        best > 0 ==> nearest(source, window, best_at, best),
    ensures
        ({
            let index = hits[j].0 as int;
            let size = hits[j].1 as int;
            &&& 0 <= index
            &&& 1 <= size <= l
            &&& index + size <= source.len()
            &&& gap_top(hits, j + 1, source.len() as int) == index
            &&& size > best ==> {
                &&& covered(source, window, l - 1, 0, size)
                &&& covered(source, window, l, index, size)
                &&& nearest(source, window, index, size)
            }
            &&& size <= best ==> covered(source, window, l, index, best)
        }),
{
    let target = window.take(l);
    let index = hits[j].0 as int;
    let size = hits[j].1 as int;
    let top = gap_top(hits, j, source.len() as int);
    let whole = run_length(source, index, window, 0);
    lemma_hit(source, target, hits, j);
    lemma_run_length_truncated(source, index, window, l, 0);
    lemma_run_length(source, index, window, 0);
    assert(whole >= 1) by {
        assert(target[0] == window[0]);
        lemma_run_length_grows(source, index, window, 1);
    }
    assert(size == if whole <= l { whole } else { l });
    assert forall|idx: int| index < idx < source.len() implies run_length(source, idx, window, 0)
        <= best || l <= best by {
        if idx < top {
            lemma_no_start(source, window, l, idx);
        } else {
            reveal(covered);
        }
    }
    if size > best {
        assert(covered(source, window, l - 1, 0, size)) by {
            reveal(covered);
        }
        assert(covered(source, window, l, index, size)) by {
            reveal(covered);
        }
        assert(nearest(source, window, index, size)) by {
            reveal(nearest);
        }
    } else {
        assert(covered(source, window, l, index, best)) by {
            reveal(covered);
        }
    }
}

/// Once all hits are considered, all places are covered.
proof fn lemma_hits_done(
    source: Seq<u8>,
    window: Seq<u8>,
    l: int,
    hits: Seq<(usize, usize)>,
    best: int,
)
    requires
        1 <= l <= window.len(),
        hits == subvec_hits(source, window.take(l)),
        hits.len() > 0 ==> lists_hits(source, window.take(l), 0, hits),
        0 <= best,
        source.len() <= usize::MAX,
        covered(source, window, l - 1, 0, best),
        covered(source, window, l, gap_top(hits, hits.len() as int, source.len() as int), best),
    ensures
        covered(source, window, l, 0, best),
{
    reveal(lists_hits);
    reveal(covered);
    let target = window.take(l);
    if target.len() <= source.len() {
        lemma_hits_from(source, target, 0);
    }
    assert forall|idx: int| 0 <= idx < source.len() implies #[trigger] run_length(
        source,
        idx,
        window,
        0,
    ) <= best || l <= best by {
        lemma_run_length(source, idx, window, 0);
        if target.len() <= source.len() {
            if idx < gap_top(hits, hits.len() as int, source.len() as int) {
                assert(!starts_at(source, target, idx));
                lemma_no_start(source, window, l, idx);
            }
        }
    }
}

/// A match that covers the whole window and is the nearest of its length
/// is the best match.
proof fn lemma_search_done(source: Seq<u8>, window: Seq<u8>, at: int, best: int)
    requires
        0 <= best,
        covered(source, window, window.len() as int, 0, best),
        best == 0 ==> at == 0,
        best > 0 ==> nearest(source, window, at, best),
    ensures
        best_match_from(source, window, 0) == (at, best),
{
    reveal(covered);
    reveal(nearest);
    assert forall|idx: int| 0 <= idx < source.len() implies #[trigger] run_length(
        source,
        idx,
        window,
        0,
    ) <= best by {
        lemma_run_length(source, idx, window, 0);
    }
    lemma_best_match_unique(source, window, (at, best));
}

/// Before any candidate is tried, nothing matches.
proof fn lemma_search_start(source: Seq<u8>, window: Seq<u8>)
    ensures
        covered(source, window, 0, 0, 0),
{
    reveal(covered);
}

/// Above the first hit nothing is to be covered.
proof fn lemma_cover_start(source: Seq<u8>, window: Seq<u8>, l: int, best: int)
    ensures
        covered(source, window, l, source.len() as int, best),
{
    reveal(covered);
}

/// The width of a window and the size of a dictionary, each between 1 and
/// 255.
#[derive(Debug)]
struct Sizes {
    window: usize,
    dictionary: usize,
}

impl Sizes {
    #[verifier::type_invariant]
    spec fn sizes_inv(self) -> bool {
        &&& 1 <= self.window <= MAX_SIZE
        &&& 1 <= self.dictionary <= MAX_SIZE
    }
}

/// An LZ77 coder: a window, a dictionary, a position in the text, and the
/// tokens made so far.
#[derive(Debug)]
pub struct LZ77 {
    sizes: Sizes,
    position: usize,
    nodes: Vec<LZ77Node>,
}

impl LZ77 {
    /// The width of the window.
    pub closed spec fn window_size(self) -> int {
        self.sizes.window as int
    }

    /// The size of the dictionary.
    pub closed spec fn dictionary_size(self) -> int {
        self.sizes.dictionary as int
    }

    /// The width of the window and the size of the dictionary, each
    /// between 1 and 255.
    pub fn sizes(&self) -> (res: (usize, usize))
        ensures
            res.0 == self.window_size(),
            res.1 == self.dictionary_size(),
            1 <= res.0 <= MAX_SIZE,
            1 <= res.1 <= MAX_SIZE,
    {
        proof {
            use_type_invariant(&self.sizes);
        }
        (self.sizes.window, self.sizes.dictionary)
    }

    /// The position in the text at which coding goes on.
    pub closed spec fn position(self) -> int {
        self.position as int
    }

    /// The tokens made so far.
    pub closed spec fn tokens(self) -> Seq<LZ77Node> {
        self.nodes@
    }

    /// A coder with the given window and dictionary, at position zero and
    /// without tokens. Both sizes lie between 1 and 255.
    pub fn new(window_size: usize, dictionary_size: usize) -> (res: LZ77)
        requires
            1 <= window_size <= MAX_SIZE,
            1 <= dictionary_size <= MAX_SIZE,
        ensures
            res.window_size() == window_size,
            res.dictionary_size() == dictionary_size,
            res.position() == 0,
            res.tokens() == Seq::<LZ77Node>::empty(),
    {
        LZ77 { sizes: Sizes { window: window_size, dictionary: dictionary_size }, position: 0, nodes: Vec::new() }
    }

    /// The longest run that the text ahead of the position has in common
    /// with the dictionary. Runs of every length that the window allows are
    /// tried, the shortest first, and a candidate replaces the best so far
    /// only when it is longer.
    fn find_longest_match(&self, data: &[u8]) -> (res: LZ77Match)
        requires
            self.position() < data@.len(),
        ensures
            ({
                let found = longest_match(
                    data@,
                    self.position(),
                    self.window_size(),
                    self.dictionary_size(),
                );
                &&& res.start() == found.0
                &&& res.run() == data@.subrange(found.0, found.0 + found.1)
            }),
    {
        let (window_size, dictionary_size) = self.sizes();
        let mut res: LZ77Match = LZ77Match::none();
        let ghost start = dictionary_start(self.position as int, dictionary_size as int);
        let ghost source = data@.subrange(start, self.position as int);
        let ghost window = data@.subrange(
            self.position as int,
            lookahead_end(self.position as int, window_size as int, data@.len() as int),
        );
        if self.position > 0 {
            let dictionary_index_start: usize = if self.position > dictionary_size {
                self.position - dictionary_size
            } else {
                0
            };
            let data_available = slice_subrange(data, dictionary_index_start, self.position);
            let data_window_index_end: usize = if data.len() - self.position > window_size - 1 {
                self.position + (window_size - 1)
            } else {
                data.len()
            };
            let data_window = slice_subrange(data, self.position, data_window_index_end);
            let mut i: usize = 0;
            proof {
                lemma_search_start(source, window);
            }
            while i < data_window.len()
                invariant
                    i <= data_window.len(),
                    data_available@ == source,
                    data_window@ == window,
                    start == dictionary_index_start,
                    1 <= source.len() <= MAX_SIZE,
                    window.len() < MAX_SIZE,
                    source == data@.subrange(start, self.position as int),
                    start + source.len() == self.position,
                    self.position < data@.len(),
                    res.run().len() <= i,
                    covered(source, window, i as int, 0, res.run().len() as int),
                    res.run().len() == 0 ==> res.start() == 0,
                    res.run().len() > 0 ==> nearest(
                        source,
                        window,
                        res.start() - start,
                        res.run().len() as int,
                    ),
                    res.run().len() > 0 ==> res.run() == data@.subrange(
                        res.start(),
                        res.start() + res.run().len(),
                    ),
                decreases data_window.len() - i,
            {
                let substring = slice_subrange(data_window, 0, i + 1);
                let matches = find_subvec_in_vec(data_available, substring);
                let ghost target = window.take(i + 1);
                proof {
                    assert(substring@ =~= target);
                    if target.len() <= source.len() {
                        lemma_hits_from(source, target, 0);
                    }
                    lemma_cover_start(source, window, i + 1, res.run().len() as int);
                }
                let mut j: usize = 0;
                while j < matches.len()
                    invariant
                        j <= matches.len(),
                        i < window.len(),
                        data_available@ == source,
                        start == dictionary_index_start,
                        1 <= source.len() <= MAX_SIZE,
                        window.len() < MAX_SIZE,
                        source == data@.subrange(start, self.position as int),
                        start + source.len() == self.position,
                        self.position < data@.len(),
                        target == window.take(i + 1),
                        matches@ == subvec_hits(source, target),
                        matches.len() > 0 ==> lists_hits(source, target, 0, matches@),
                        res.run().len() <= i + 1,
                        covered(source, window, i as int, 0, res.run().len() as int),
                        covered(
                            source,
                            window,
                            i + 1,
                            gap_top(matches@, j as int, source.len() as int),
                            res.run().len() as int,
                        ),
                        res.run().len() == 0 ==> res.start() == 0,
                        res.run().len() > 0 ==> nearest(
                            source,
                            window,
                            res.start() - start,
                            res.run().len() as int,
                        ),
                        res.run().len() > 0 ==> res.run() == data@.subrange(
                            res.start(),
                            res.start() + res.run().len(),
                        ),
                    decreases matches.len() - j,
                {
                    let (index, size) = matches[j];
                    proof {
                        assert(matches@[j as int] == (index, size));
                        lemma_consider_hit(
                            source,
                            window,
                            i + 1,
                            matches@,
                            j as int,
                            res.start() - start,
                            res.run().len() as int,
                        );
                    }
                    let index_start: usize = dictionary_index_start + index;
                    let index_end: usize = if index + size < data_available.len() {
                        index + size
                    } else {
                        data_available.len()
                    };
                    let match_data: Vec<u8> = slice_to_vec(
                        slice_subrange(data_available, index, index_end),
                    );
                    let new_match = LZ77Match::new(match_data, index_start);
                    if new_match.longer_than(&res) {
                        res = new_match;
                        proof {
                            assert(res.run() =~= data@.subrange(
                                res.start(),
                                res.start() + res.run().len(),
                            ));
                        }
                    }
                    j += 1;
                }
                proof {
                    lemma_hits_done(source, window, i + 1, matches@, res.run().len() as int);
                }
                i += 1;
            }
            proof {
                let best = res.run().len() as int;
                let at = if best == 0 {
                    0
                } else {
                    res.start() - start
                };
                lemma_search_done(source, window, at, best);
            }
        } else {
            assert(res.run() =~= data@.subrange(0, 0));
        }
        res
    }

    /// Codes `data` from the position on and appends the tokens to those
    /// made so far. Each token covers its run and its literal; coding stops
    /// behind the last literal, or with a token whose run reaches the end of
    /// `data`.
    pub fn encode_bytes(&mut self, data: &[u8])
        ensures
            final(self).window_size() == old(self).window_size(),
            final(self).dictionary_size() == old(self).dictionary_size(),
            final(self).tokens() == old(self).tokens() + tokens_from(
                data@,
                old(self).position(),
                old(self).window_size(),
                old(self).dictionary_size(),
            ),
            final(self).position() == position_after(
                data@,
                old(self).position(),
                old(self).window_size(),
                old(self).dictionary_size(),
            ),
    {
        let data_length: usize = data.len();
        let ghost all = old(self).tokens() + tokens_from(
            data@,
            old(self).position(),
            old(self).window_size(),
            old(self).dictionary_size(),
        );
        let ghost end = position_after(
            data@,
            old(self).position(),
            old(self).window_size(),
            old(self).dictionary_size(),
        );
        let sizes = self.sizes();
        while self.position < data_length
            invariant_except_break
                all == self.tokens() + tokens_from(
                    data@,
                    self.position(),
                    self.window_size(),
                    self.dictionary_size(),
                ),
                end == position_after(
                    data@,
                    self.position(),
                    self.window_size(),
                    self.dictionary_size(),
                ),
            invariant
                data_length == data@.len(),
                self.window_size() == old(self).window_size(),
                self.dictionary_size() == old(self).dictionary_size(),
                1 <= self.window_size() <= MAX_SIZE,
                1 <= self.dictionary_size() <= MAX_SIZE,
            ensures
                all == self.tokens(),
                end == self.position(),
            decreases data_length - self.position,
        {
            let ghost before = self.tokens();
            let ghost pos = self.position();
            let ghost token = token_at(data@, pos, self.window_size(), self.dictionary_size());
            proof {
                lemma_longest_match(data@, pos, self.window_size(), self.dictionary_size());
            }
            let longest_match = self.find_longest_match(data);
            let longest_match_size: usize = longest_match.len();
            let offset: usize = if longest_match_size == 0 {
                0
            } else {
                self.position - longest_match.index()
            };
            let next_match_position_start: usize = self.position + longest_match_size;
            if next_match_position_start < data_length {
                let next_match_value: u8 = data[next_match_position_start];
                let node = LZ77Node::new(
                    offset,
                    longest_match_size,
                    LZ77NodeMatch::NextMatch(next_match_value),
                );
                self.nodes.push(node);
                self.position += longest_match_size + 1;
                proof {
                    assert(node == token);
                    assert(before + (seq![token] + tokens_from(
                        data@,
                        self.position(),
                        self.window_size(),
                        self.dictionary_size(),
                    )) =~= before.push(token) + tokens_from(
                        data@,
                        self.position(),
                        self.window_size(),
                        self.dictionary_size(),
                    ));
                }
            } else {
                let node = LZ77Node::new(offset, longest_match_size, LZ77NodeMatch::EndOfData);
                self.nodes.push(node);
                proof {
                    assert(node == token);
                    assert(before + seq![token] =~= before.push(token));
                }
                break ;
            }
        }
        proof {
            assert(self.tokens() + Seq::<LZ77Node>::empty() =~= self.tokens());
        }
    }

    /// Codes the bytes of `data` from the position on and appends the
    /// tokens to those made so far.
    pub fn encode(&mut self, data: &str)
        ensures
            final(self).window_size() == old(self).window_size(),
            final(self).dictionary_size() == old(self).dictionary_size(),
            final(self).tokens() == old(self).tokens() + tokens_from(
                encode_utf8(data@),
                old(self).position(),
                old(self).window_size(),
                old(self).dictionary_size(),
            ),
            final(self).position() == position_after(
                encode_utf8(data@),
                old(self).position(),
                old(self).window_size(),
                old(self).dictionary_size(),
            ),
    {
        self.encode_bytes(data.as_bytes())
    }

    /// The bytes that `tokens` stand for. A run is copied byte by byte, so
    /// that it may reach into its own copy. Fails when a reference has
    /// offset zero or points before the start of the output.
    pub fn decode_tokens(tokens: &[LZ77Node]) -> (res: Result<Vec<u8>, DecodeError>)
        ensures
            match res {
                Ok(bytes) => lz77_decode(tokens@) == Ok::<Seq<u8>, DecodeError>(bytes@),
                Err(e) => lz77_decode(tokens@) == Err::<Seq<u8>, DecodeError>(e),
            },
    {
        let mut out: Vec<u8> = Vec::new();
        let mut i: usize = 0;
        assert(tokens@.skip(0) =~= tokens@);
        while i < tokens.len()
            invariant
                i <= tokens.len(),
                lz77_decode(tokens@) == decode_from(tokens@.skip(i as int), out@),
            decreases tokens.len() - i,
        {
            let node: LZ77Node = tokens[i];
            proof {
                assert(tokens@.skip(i as int)[0] == node);
                assert(tokens@.skip(i as int).drop_first() =~= tokens@.skip(i + 1));
            }
            if node.length > 0 {
                if node.offset == 0 || node.offset > out.len() {
                    return Err(DecodeError::BadReference);
                }
                copy_back_into(&mut out, node.offset, node.length);
            }
            match node.next_match {
                LZ77NodeMatch::NextMatch(byte) => {
                    out.push(byte);
                },
                LZ77NodeMatch::EndOfData => {
                    return Ok(out);
                },
            }
            i += 1;
        }
        Ok(out)
    }

    /// The bytes that the tokens made so far stand for.
    pub fn decode_bytes(&self) -> (res: Result<Vec<u8>, DecodeError>)
        ensures
            match res {
                Ok(bytes) => lz77_decode(self.tokens()) == Ok::<Seq<u8>, DecodeError>(bytes@),
                Err(e) => lz77_decode(self.tokens()) == Err::<Seq<u8>, DecodeError>(e),
            },
    {
        LZ77::decode_tokens(self.nodes.as_slice())
    }

    /// The text that the tokens made so far stand for. Fails when a
    /// reference points before the start of the output, and when the bytes
    /// that the tokens stand for are no valid UTF-8.
    pub fn decode(&self) -> (res: Result<String, DecodeError>)
        ensures
            match res {
                Ok(text) => lz77_decode_text(self.tokens()) == Ok::<Seq<char>, DecodeError>(text@),
                Err(e) => lz77_decode_text(self.tokens()) == Err::<Seq<char>, DecodeError>(e),
            },
    {
        match self.decode_bytes() {
            Ok(bytes) => match string_from_utf8(bytes) {
                Some(text) => Ok(text),
                None => Err(DecodeError::BadText),
            },
            Err(e) => Err(e),
        }
    }

    /// An iterator over the tokens made so far.
    pub fn iter(&self) -> (res: Iter<'_, LZ77Node>)
        ensures
            into_iter_elts(res) == self.tokens(),
    {
        broadcast use vstd::std_specs::slice::axiom_spec_slice_iter;

        self.nodes.as_slice().iter()
    }

    /// The tokens made so far.
    pub fn nodes(&self) -> (res: &[LZ77Node])
        ensures
            res@ == self.tokens(),
    {
        self.nodes.as_slice()
    }
}

/// Decoding the tokens of a text from a position on, with the text up to
/// that position as output so far, gives the text.
pub proof fn lemma_decode_rebuilds(data: Seq<u8>, pos: int, window_size: int, dictionary_size: int)
    requires
        0 <= pos <= data.len() <= usize::MAX,
        1 <= window_size,
        1 <= dictionary_size,
    ensures
        decode_from(tokens_from(data, pos, window_size, dictionary_size), data.take(pos)) == Ok::<
            Seq<u8>,
            DecodeError,
        >(data),
    decreases data.len() - pos,
{
    if pos < data.len() {
        lemma_longest_match(data, pos, window_size, dictionary_size);
        let found = longest_match(data, pos, window_size, dictionary_size);
        let token = token_at(data, pos, window_size, dictionary_size);
        let tokens = tokens_from(data, pos, window_size, dictionary_size);
        let out = data.take(pos);
        assert(tokens[0] == token);
        let copied = copy_back(out, token.offset as int, token.length as nat);
        if found.1 > 0 {
            assert forall|k: int| 0 <= k < found.1 implies #[trigger] data[pos + k] == data[pos + k
                - (pos - found.0)] by {
                assert(data[pos + k] == data[found.0 + k]);
            }
            lemma_copy_back_rebuilds(data, pos, pos - found.0, found.1 as nat);
        } else {
            assert(out =~= data.take(pos + found.1));
        }
        assert(copied == data.take(pos + found.1));
        if pos + found.1 < data.len() {
            assert(tokens.drop_first() =~= tokens_from(
                data,
                pos + found.1 + 1,
                window_size,
                dictionary_size,
            ));
            assert(copied.push(data[pos + found.1]) =~= data.take(pos + found.1 + 1));
            lemma_decode_rebuilds(data, pos + found.1 + 1, window_size, dictionary_size);
        } else {
            assert(copied =~= data);
        }
    } else {
        assert(data.take(pos) =~= data);
    }
}

/// Coding and decoding give back the bytes: for every text and every
/// window and dictionary between 1 and 255, the tokens of the text stand for
/// the text.
pub proof fn lemma_round_trip(data: Seq<u8>, window_size: int, dictionary_size: int)
    requires
        data.len() <= usize::MAX,
        1 <= window_size <= MAX_SIZE,
        1 <= dictionary_size <= MAX_SIZE,
    ensures
        lz77_decode(tokens_from(data, 0, window_size, dictionary_size)) == Ok::<
            Seq<u8>,
            DecodeError,
        >(data),
{
    lemma_decode_rebuilds(data, 0, window_size, dictionary_size);
    assert(data.take(0) =~= Seq::<u8>::empty());
}

/// Coding and decoding give back the text: for every string and every
/// window and dictionary between 1 and 255, the tokens of the string's bytes
/// stand for the string.
pub proof fn lemma_round_trip_text(text: Seq<char>, window_size: int, dictionary_size: int)
    requires
        encode_utf8(text).len() <= usize::MAX,
        1 <= window_size <= MAX_SIZE,
        1 <= dictionary_size <= MAX_SIZE,
    ensures
        lz77_decode_text(tokens_from(encode_utf8(text), 0, window_size, dictionary_size)) == Ok::<
            Seq<char>,
            DecodeError,
        >(text),
{
    lemma_round_trip(encode_utf8(text), window_size, dictionary_size);
    vstd::utf8::encode_utf8_valid_utf8(text);
    vstd::utf8::encode_utf8_decode_utf8(text);
}

} // verus!
