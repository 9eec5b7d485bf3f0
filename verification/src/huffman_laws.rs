//! Why decoding undoes coding: the code of a text has a code for every
//! symbol of the text, no symbol twice, no empty code, and no code that
//! another code starts with.

use crate::huffman::{
    ascending, code_for, codebook_of, codes_under, decoded, decoded_from, encoded,
    frequency_table, joined, leaves, lemma_frequency_table, lemma_leaves, lemma_merge_step_len,
    lemma_min_index, merge_step, merged, min_index, symbol_for, table_has, Code, HuffmanNode,
    SymbolCount,
};
use vstd::prelude::*;

verus! {

/// Whether `b` starts with `a`.
pub open spec fn is_prefix(a: Seq<char>, b: Seq<char>) -> bool {
    a.len() <= b.len() && b.take(a.len() as int) == a
}

/// Whether no code of `book` starts with another code of `book`.
pub open spec fn prefix_free(book: Seq<Code>) -> bool {
    forall|i: int, j: int|
        0 <= i < book.len() && 0 <= j < book.len() && i != j ==> !is_prefix(
            (#[trigger] book[i]).bits,
            (#[trigger] book[j]).bits,
        )
}

/// Whether no symbol has two entries in `book`.
pub open spec fn symbols_unique(book: Seq<Code>) -> bool {
    forall|i: int, j: int|
        0 <= i < book.len() && 0 <= j < book.len() && i != j ==> (#[trigger] book[i]).symbol
            != (#[trigger] book[j]).symbol
}

/// Whether no code of `book` is empty.
pub open spec fn codes_nonempty(book: Seq<Code>) -> bool {
    forall|i: int| 0 <= i < book.len() ==> (#[trigger] book[i]).bits.len() > 0
}

/// Whether `book` can be decoded: its codes are not empty, none starts
/// with another, and no symbol stands twice.
pub open spec fn decodable(book: Seq<Code>) -> bool {
    &&& prefix_free(book)
    &&& symbols_unique(book)
    &&& codes_nonempty(book)
}

/// Whether `book` has a code for `c`.
pub open spec fn has_code(book: Seq<Code>, c: char) -> bool {
    exists|i: int| 0 <= i < book.len() && (#[trigger] book[i]).symbol == c
}

/// Whether no symbol stands in two trees of `forest`, or twice in one.
pub open spec fn forest_distinct(forest: Seq<HuffmanNode>) -> bool {
    &&& forall|i: int| 0 <= i < forest.len() ==> (#[trigger] forest[i]).distinct()
    &&& forall|i: int, j: int|
        0 <= i < forest.len() && 0 <= j < forest.len() && i != j ==> (#[trigger] forest[i]).symbols().disjoint(
            (#[trigger] forest[j]).symbols(),
        )
}

/// Whether `c` stands in a tree of `forest`.
pub open spec fn forest_covers(forest: Seq<HuffmanNode>, c: char) -> bool {
    exists|i: int| 0 <= i < forest.len() && (#[trigger] forest[i]).symbols().contains(c)
}

/// The place in the forest before a merge of the tree that stands at `k`
/// after it, where the trees at `i` and `j` were taken out.
pub open spec fn origin(i: int, j: int, k: int) -> int {
    let low = if i < j {
        i
    } else {
        j
    };
    let high = if i < j {
        j
    } else {
        i
    };
    if k < low {
        k
    } else if k + 1 < high {
        k + 1
    } else {
        k + 2
    }
}

/// The place after a merge of the tree that stood at `m` before it.
pub open spec fn target(i: int, j: int, m: int) -> int {
    m - (if i < m {
        1int
    } else {
        0int
    }) - (if j < m {
        1int
    } else {
        0int
    })
}

/// The entry found for a symbol is the first entry for it.
pub proof fn lemma_code_for(book: Seq<Code>, c: char, from: int)
    requires
        0 <= from,
    ensures
        match code_for(book, c, from) {
            Some(code) => exists|i: int|
                from <= i < book.len() && (#[trigger] book[i]).symbol == c && book[i].bits == code,
            None => forall|i: int| from <= i < book.len() ==> (#[trigger] book[i]).symbol != c,
        },
    decreases book.len() - from,
{
    if from < book.len() {
        if book[from].symbol == c {
            assert(book[from].bits == code_for(book, c, from).unwrap());
        } else {
            lemma_code_for(book, c, from + 1);
        }
    }
}

/// The entry found for a code is the first entry with it.
pub proof fn lemma_symbol_for(book: Seq<Code>, code: Seq<char>, from: int)
    requires
        0 <= from,
    ensures
        match symbol_for(book, code, from) {
            Some(c) => exists|i: int|
                from <= i < book.len() && (#[trigger] book[i]).bits == code && book[i].symbol == c,
            None => forall|i: int| from <= i < book.len() ==> (#[trigger] book[i]).bits != code,
        },
    decreases book.len() - from,
{
    if from < book.len() {
        if book[from].bits == code {
            assert(book[from].symbol == symbol_for(book, code, from).unwrap());
        } else {
            lemma_symbol_for(book, code, from + 1);
        }
    }
}

/// Reading the rest of a code gives its symbol: with the first `k`
/// characters of the code of entry `i` read, the characters from `k` on and
/// whatever follows decode to the symbol of the entry and what the rest
/// decodes to.
pub proof fn lemma_decode_code(book: Seq<Code>, i: int, k: int, rest: Seq<char>)
    requires
        decodable(book),
        0 <= i < book.len(),
        0 <= k < book[i].bits.len(),
    ensures
        decoded_from(book, book[i].bits.skip(k) + rest, book[i].bits.take(k)) == seq![
            book[i].symbol,
        ] + decoded_from(book, rest, Seq::empty()),
    decreases book[i].bits.len() - k,
{
    let code = book[i].bits;
    let bits = code.skip(k) + rest;
    let read = code.take(k).push(bits[0]);
    assert(bits[0] == code[k]);
    assert(read =~= code.take(k + 1));
    assert(bits.drop_first() =~= code.skip(k + 1) + rest);
    lemma_symbol_for(book, read, 0);
    if k + 1 < code.len() {
        if symbol_for(book, read, 0) is Some {
            let j = choose|j: int| 0 <= j < book.len() && (#[trigger] book[j]).bits == read;
            assert(is_prefix(book[j].bits, book[i].bits));
        }
        lemma_decode_code(book, i, k + 1, rest);
    } else {
        assert(read =~= code);
        assert(symbol_for(book, read, 0) is Some);
        let j = choose|j: int|
            0 <= j < book.len() && (#[trigger] book[j]).bits == read && book[j].symbol
                == symbol_for(book, read, 0).unwrap();
        if j != i {
            assert(book[j].bits.take(book[j].bits.len() as int) =~= book[j].bits);
            assert(is_prefix(book[j].bits, book[i].bits));
        }
        assert(code.skip(k + 1) + rest =~= rest);
    }
}

/// With a code that can be decoded, decoding undoes coding, for every text
/// whose symbols all have a code.
pub proof fn lemma_decode_encoded(book: Seq<Code>, text: Seq<char>)
    requires
        decodable(book),
        forall|k: int| 0 <= k < text.len() ==> has_code(book, #[trigger] text[k]),
    ensures
        decoded(book, encoded(book, text)) == text,
    decreases text.len(),
{
    if text.len() > 0 {
        let c = text[0];
        let rest = text.drop_first();
        assert forall|k: int| 0 <= k < rest.len() implies has_code(book, #[trigger] rest[k]) by {
            assert(rest[k] == text[k + 1]);
        }
        lemma_decode_encoded(book, rest);
        lemma_code_for(book, c, 0);
        assert(has_code(book, c));
        let i = choose|i: int|
            0 <= i < book.len() && (#[trigger] book[i]).symbol == c && book[i].bits == code_for(
                book,
                c,
                0,
            ).unwrap();
        let code = book[i].bits;
        lemma_decode_code(book, i, 0, encoded(book, rest));
        assert(code.skip(0) =~= code);
        assert(code.take(0) =~= Seq::<char>::empty());
        assert(seq![c] + rest =~= text);
    }
}

/// A sequence that starts with a longer prefix starts with the shorter
/// one, and goes on with the character that makes the difference.
proof fn lemma_prefix_push(prefix: Seq<char>, x: char, bits: Seq<char>)
    requires
        is_prefix(prefix.push(x), bits),
    ensures
        is_prefix(prefix, bits),
        bits.len() > prefix.len(),
        bits[prefix.len() as int] == x,
{
    let longer = prefix.push(x);
    assert(bits.take(longer.len() as int)[prefix.len() as int] == longer[prefix.len() as int]);
    assert(bits.take(prefix.len() as int) =~= bits.take(longer.len() as int).take(
        prefix.len() as int,
    ));
    assert(longer.take(prefix.len() as int) =~= prefix);
}

/// Of two sequences of which one starts with the other, the longer one
/// agrees with the shorter one wherever the shorter one has a character.
proof fn lemma_prefix_agrees(a: Seq<char>, b: Seq<char>, at: int)
    requires
        is_prefix(a, b),
        0 <= at < a.len(),
    ensures
        a[at] == b[at],
{
    assert(b.take(a.len() as int)[at] == b[at]);
}

/// The codes under a tree in which no symbol stands twice: there is one
/// for each symbol of the tree and for no other symbol, each starts with the
/// path to the tree, none starts with another, and no symbol has two.
pub proof fn lemma_codes_under(node: HuffmanNode, prefix: Seq<char>)
    requires
        node.distinct(),
    ensures
        ({
            let book = codes_under(node, prefix);
            &&& forall|i: int|
                0 <= i < book.len() ==> is_prefix(prefix, (#[trigger] book[i]).bits)
                    && node.symbols().contains(book[i].symbol) && (node is Internal
                    ==> book[i].bits.len() > prefix.len())
            &&& forall|c: char| node.symbols().contains(c) ==> has_code(book, c)
            &&& prefix_free(book)
            &&& symbols_unique(book)
        }),
    decreases node,
{
    let book = codes_under(node, prefix);
    match node {
        HuffmanNode::Leaf { character, .. } => {
            assert(prefix.take(prefix.len() as int) =~= prefix);
            assert(book[0].symbol == character);
        },
        HuffmanNode::Internal { left, right, .. } => {
            let low = prefix.push('0');
            let high = prefix.push('1');
            let first = codes_under(*left, low);
            let second = codes_under(*right, high);
            lemma_codes_under(*left, low);
            lemma_codes_under(*right, high);
            assert(book =~= first + second);
            assert forall|i: int| 0 <= i < book.len() implies is_prefix(
                prefix,
                (#[trigger] book[i]).bits,
            ) && node.symbols().contains(book[i].symbol) && book[i].bits.len() > prefix.len() by {
                if i < first.len() {
                    assert(book[i] == first[i]);
                    lemma_prefix_push(prefix, '0', first[i].bits);
                } else {
                    assert(book[i] == second[i - first.len()]);
                    lemma_prefix_push(prefix, '1', second[i - first.len()].bits);
                }
            }
            assert forall|c: char| node.symbols().contains(c) implies has_code(book, c) by {
                if left.symbols().contains(c) {
                    assert(has_code(first, c));
                    let i = choose|i: int| 0 <= i < first.len() && (#[trigger] first[i]).symbol == c;
                    assert(book[i].symbol == c);
                } else {
                    assert(has_code(second, c));
                    let i = choose|i: int|
                        0 <= i < second.len() && (#[trigger] second[i]).symbol == c;
                    assert(book[i + first.len()].symbol == c);
                }
            }
            assert forall|i: int, j: int|
                0 <= i < book.len() && 0 <= j < book.len() && i != j implies !is_prefix(
                (#[trigger] book[i]).bits,
                (#[trigger] book[j]).bits,
            ) && book[i].symbol != book[j].symbol by {
                if i < first.len() && j < first.len() {
                    assert(book[i] == first[i] && book[j] == first[j]);
                } else if i >= first.len() && j >= first.len() {
                    assert(book[i] == second[i - first.len()]);
                    assert(book[j] == second[j - first.len()]);
                } else if i < first.len() {
                    let a = first[i];
                    let b = second[j - first.len()];
                    assert(book[i] == a && book[j] == b);
                    lemma_prefix_push(prefix, '0', a.bits);
                    lemma_prefix_push(prefix, '1', b.bits);
                    if is_prefix(a.bits, b.bits) {
                        lemma_prefix_agrees(a.bits, b.bits, prefix.len() as int);
                    }
                    assert(left.symbols().contains(a.symbol));
                    assert(right.symbols().contains(b.symbol));
                } else {
                    let a = second[i - first.len()];
                    let b = first[j];
                    assert(book[i] == a && book[j] == b);
                    lemma_prefix_push(prefix, '1', a.bits);
                    lemma_prefix_push(prefix, '0', b.bits);
                    if is_prefix(a.bits, b.bits) {
                        lemma_prefix_agrees(a.bits, b.bits, prefix.len() as int);
                    }
                    assert(right.symbols().contains(a.symbol));
                    assert(left.symbols().contains(b.symbol));
                }
            }
        },
    }
}

/// The leaves of a table in order hold each symbol of the table once.
pub proof fn lemma_leaves_distinct(table: Seq<SymbolCount>)
    requires
        ascending(table),
    ensures
        forest_distinct(leaves(table)),
        forall|c: char| table_has(table, c) ==> forest_covers(leaves(table), c),
{
    let forest = leaves(table);
    lemma_leaves(table);
    assert forall|i: int, j: int|
        0 <= i < forest.len() && 0 <= j < forest.len() && i != j implies (#[trigger] forest[i]).symbols().disjoint(
        (#[trigger] forest[j]).symbols(),
    ) by {
        if i < j {
            assert((table[i].symbol as u32) < table[j].symbol as u32);
        } else {
            assert((table[j].symbol as u32) < table[i].symbol as u32);
        }
    }
    assert forall|c: char| table_has(table, c) implies forest_covers(forest, c) by {
        let i = choose|i: int| 0 <= i < table.len() && (#[trigger] table[i]).symbol == c;
        assert(forest[i].symbols().contains(c));
    }
}

/// What a merge does to a forest: two trees leave it, the others keep
/// their order, and the join of the two stands at the end.
pub proof fn lemma_merge_step_shape(forest: Seq<HuffmanNode>)
    requires
        forest.len() >= 2,
    ensures
        ({
            let i = min_index(forest, forest.len() as int);
            let rest = forest.remove(i);
            let j = min_index(rest, rest.len() as int);
            let j2 = if j < i {
                j
            } else {
                j + 1
            };
            let after = merge_step(forest);
            &&& 0 <= i < forest.len()
            &&& 0 <= j2 < forest.len()
            &&& i != j2
            &&& after.len() == forest.len() - 1
            &&& after[after.len() - 1] == joined(forest[i], forest[j2])
            &&& forall|k: int|
                0 <= k < after.len() - 1 ==> #[trigger] after[k] == forest[origin(i, j2, k)]
        }),
{
    let i = min_index(forest, forest.len() as int);
    lemma_min_index(forest, forest.len() as int);
    let rest = forest.remove(i);
    let j = min_index(rest, rest.len() as int);
    lemma_min_index(rest, rest.len() as int);
    lemma_merge_step_len(forest);
}

/// The symbols of a join are those of its two parts, and no symbol
/// stands twice in it where none stands twice in the parts or in both.
pub proof fn lemma_joined(first: HuffmanNode, second: HuffmanNode)
    ensures
        joined(first, second).symbols() == first.symbols().union(second.symbols()),
        first.distinct() && second.distinct() && first.symbols().disjoint(second.symbols())
            ==> joined(first, second).distinct(),
{
    assert(joined(first, second).symbols() =~= first.symbols().union(second.symbols()));
}

/// A merge keeps the symbols of a forest, each once.
pub proof fn lemma_merge_step_keeps(forest: Seq<HuffmanNode>)
    requires
        forest.len() >= 2,
        forest_distinct(forest),
    ensures
        forest_distinct(merge_step(forest)),
        forall|c: char| forest_covers(forest, c) ==> forest_covers(merge_step(forest), c),
{
    let i = min_index(forest, forest.len() as int);
    let rest = forest.remove(i);
    let j = min_index(rest, rest.len() as int);
    let j2 = if j < i {
        j
    } else {
        j + 1
    };
    let after = merge_step(forest);
    let last = after.len() - 1;
    lemma_merge_step_shape(forest);
    lemma_joined(forest[i], forest[j2]);
    assert forall|k: int| 0 <= k < after.len() implies (#[trigger] after[k]).distinct() by {
        if k < last {
            assert(after[k] == forest[origin(i, j2, k)]);
        }
    }
    assert forall|a: int, b: int|
        0 <= a < after.len() && 0 <= b < after.len() && a != b implies (#[trigger] after[a]).symbols().disjoint(
        (#[trigger] after[b]).symbols(),
    ) by {
        if a < last && b < last {
            assert(after[a] == forest[origin(i, j2, a)]);
            assert(after[b] == forest[origin(i, j2, b)]);
        } else if a < last {
            let m = origin(i, j2, a);
            assert(after[a] == forest[m]);
            assert(forest[m].symbols().disjoint(forest[i].symbols()));
            assert(forest[m].symbols().disjoint(forest[j2].symbols()));
        } else {
            let m = origin(i, j2, b);
            assert(after[b] == forest[m]);
            assert(forest[i].symbols().disjoint(forest[m].symbols()));
            assert(forest[j2].symbols().disjoint(forest[m].symbols()));
        }
    }
    assert forall|c: char| forest_covers(forest, c) implies forest_covers(after, c) by {
        let m = choose|m: int| 0 <= m < forest.len() && (#[trigger] forest[m]).symbols().contains(c);
        if m == i || m == j2 {
            assert(after[last].symbols().contains(c));
        } else {
            let k = target(i, j2, m);
            assert(origin(i, j2, k) == m);
            assert(after[k] == forest[m]);
            assert(after[k].symbols().contains(c));
        }
    }
}

/// Merging to the end keeps the symbols of a forest, each once, and
/// leaves one tree of a forest that is not empty.
pub proof fn lemma_merged_keeps(forest: Seq<HuffmanNode>)
    requires
        forest_distinct(forest),
    ensures
        forest_distinct(merged(forest)),
        forest.len() >= 1 ==> merged(forest).len() == 1,
        forest.len() == 0 ==> merged(forest).len() == 0,
        forall|c: char| forest_covers(forest, c) ==> forest_covers(merged(forest), c),
    decreases forest.len(),
{
    if forest.len() >= 2 {
        lemma_merge_step_len(forest);
        lemma_merge_step_keeps(forest);
        lemma_merged_keeps(merge_step(forest));
    }
}

/// The code of a text can be decoded, and has a code for every symbol of
/// the text.
pub proof fn lemma_codebook(text: Seq<char>)
    requires
        text.len() <= usize::MAX,
    ensures
        decodable(codebook_of(text)),
        forall|k: int| 0 <= k < text.len() ==> has_code(codebook_of(text), #[trigger] text[k]),
{
    let table = frequency_table(text);
    let forest = leaves(table);
    let root = merged(forest);
    let book = codebook_of(text);
    lemma_frequency_table(text);
    lemma_leaves_distinct(table);
    lemma_leaves(table);
    lemma_merged_keeps(forest);
    if root.len() > 0 {
        assert(root[0].distinct());
        match root[0] {
            HuffmanNode::Leaf { character, .. } => {
                assert(book[0].bits.len() == 1);
            },
            HuffmanNode::Internal { .. } => {
                lemma_codes_under(root[0], Seq::empty());
            },
        }
    }
    assert forall|k: int| 0 <= k < text.len() implies has_code(book, #[trigger] text[k]) by {
        let c = text[k];
        assert(text.contains(c));
        assert(table_has(table, c));
        assert(forest_covers(forest, c));
        assert(forest_covers(root, c));
        let m = choose|m: int| 0 <= m < root.len() && (#[trigger] root[m]).symbols().contains(c);
        assert(m == 0);
        match root[0] {
            HuffmanNode::Leaf { character, .. } => {
                assert(book[0].symbol == c);
            },
            HuffmanNode::Internal { .. } => {},
        }
    }
}

/// Decoding undoes coding: a text that is coded with its own code and
/// decoded with the same code is the text again.
pub proof fn lemma_round_trip(text: Seq<char>)
    requires
        text.len() <= usize::MAX,
    ensures
        decoded(codebook_of(text), encoded(codebook_of(text), text)) == text,
{
    lemma_codebook(text);
    lemma_decode_encoded(codebook_of(text), text);
}

} // verus!
